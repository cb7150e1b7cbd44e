use luminatti::calls::{filter_graph, retain_context};
use luminatti::radar::{
    bubble_color, capture_path, color, combined_focus, dependency_focus, supported, CallEdge,
    Change, Edge, FileNode, FunctionId, FunctionNode, Graph,
};
use luminatti::radar_graph::{adjacency, combine, components, key, reach_marks, remap};
use luminatti::resolve::{contains, directory, join};
use luminatti::review_focus::review_dependency_focus;
use luminatti::bubble_focus::bubble_dependencies;
use luminatti::radar::DependencyFocus;
use luminatti::radar_state::{dependent_counts, RadarSelection};
use std::collections::BTreeSet;

fn node(path: &str, change: Change) -> FileNode {
    FileNode { path: path.into(), package: String::new(), change, functions: Vec::new(), entry: false }
}

fn edge(from: &str, to: &str, change: Change) -> Edge {
    Edge { from: from.into(), to: to.into(), change }
}

/// The graph of two revisions of `main.ts → a.ts → b.ts → c.ts → d.ts`
/// where `a.ts`, `d.ts` and the unimported `unused.ts` changed.
fn chain() -> Graph {
    Graph {
        files: vec![
            node("a.ts", Change::Modified),
            node("b.ts", Change::Unchanged),
            node("c.ts", Change::Unchanged),
            node("d.ts", Change::Modified),
            node("main.ts", Change::Unchanged),
            node("unused.ts", Change::Modified),
        ],
        edges: vec![
            edge("a.ts", "b.ts", Change::Unchanged),
            edge("b.ts", "c.ts", Change::Unchanged),
            edge("c.ts", "d.ts", Change::Unchanged),
            edge("main.ts", "a.ts", Change::Unchanged),
        ],
        calls: Vec::new(),
        skipped_files: 0,
        unresolved: 0,
    }
}

fn set(v: &[String]) -> BTreeSet<String> {
    v.iter().cloned().collect()
}

#[test]
fn removed_and_added_imports_are_not_joined() {
    let graph = Graph {
        files: vec![node("a.ts", Change::Modified), node("b.ts", Change::Unchanged), node("c.ts", Change::Unchanged)],
        edges: vec![edge("a.ts", "b.ts", Change::Removed), edge("b.ts", "c.ts", Change::Added)],
        calls: Vec::new(),
        skipped_files: 0,
        unresolved: 0,
    };
    let focus = dependency_focus(&graph, "a.ts").unwrap();
    assert_eq!(set(&focus.files), BTreeSet::from(["a.ts".into(), "b.ts".into()]));
    assert!(dependency_focus(&graph, "missing.ts").is_none());
}

#[test]
fn combined_focus_is_the_union_of_the_files_foci() {
    let graph = chain();
    let both = combined_focus(&graph, &vec!["a.ts".to_string(), "d.ts".to_string()]).unwrap();
    assert_eq!(both.files.len(), 5);
    assert!(combined_focus(&graph, &Vec::new()).is_none());
    let unused = combined_focus(&graph, &vec!["unused.ts".to_string()]).unwrap();
    assert_eq!(unused.files, vec!["unused.ts".to_string()]);
}

#[test]
fn supported_sources_and_captured_paths() {
    assert!(supported("src/app.tsx"));
    assert!(supported("package.json"));
    assert!(!supported("node_modules/x/index.ts"));
    assert!(!supported("README.md"));
    let extra = vec!["docs/readme.md".to_string()];
    assert!(capture_path("docs/readme.md", Some(&extra)));
    assert!(capture_path("config/settings.jsonc", Some(&extra)));
    assert!(!capture_path("config/settings.jsonc", None));
}

#[test]
fn changes_have_markers_and_colors() {
    assert_eq!(Change::Added.marker(), "A");
    assert_eq!(Change::Removed.marker(), "D");
    assert_eq!(Change::Modified.marker(), "M");
    assert_eq!(color(Change::Added), 0x79c99e);
    assert_eq!(bubble_color(Change::Unchanged), 0x62666d);
    assert_eq!(combine(Change::Added, Change::Added), Change::Added);
    assert_eq!(combine(Change::Added, Change::Removed), Change::Modified);
}

#[test]
fn keys_join_paths_with_nul() {
    assert_eq!(key(&["a".to_string(), "b".to_string()]), "a\0b");
    assert_eq!(key(&[]), "");
}

#[test]
fn adjacency_and_components() {
    let edges = vec![((0, 1), Change::Added), ((1, 0), Change::Unchanged), ((1, 2), Change::Removed)];
    let (outgoing, incoming) = adjacency(3, &edges);
    assert_eq!(outgoing, vec![vec![1], vec![0, 2], vec![]]);
    assert_eq!(incoming, vec![vec![1], vec![0], vec![1]]);
    assert_eq!(reach_marks(&outgoing, 2), vec![false, false, true]);
    assert_eq!(reach_marks(&outgoing, 0), vec![true, true, true]);
    assert_eq!(components(&outgoing, &incoming), vec![vec![0, 1], vec![2]]);
    let merged = remap(&edges, &[0, 0, 1]);
    assert_eq!(merged.len(), 1);
    assert_eq!(merged[0].0, (0, 1));
    assert_eq!(merged[0].1, Change::Removed);
}

fn function(name: &str, change: Change) -> FunctionNode {
    FunctionNode { name: name.into(), line: 1, change }
}

fn id(file: &str, name: &str) -> FunctionId {
    FunctionId { file: file.into(), name: name.into() }
}

#[test]
fn context_keeps_changed_functions_and_their_callers() {
    let mut a = node("a.ts", Change::Modified);
    a.functions = vec![function("changed", Change::Modified), function("caller", Change::Unchanged), function("idle", Change::Unchanged)];
    let mut graph = Graph {
        files: vec![a],
        edges: Vec::new(),
        calls: vec![CallEdge { from: id("a.ts", "caller"), to: id("a.ts", "changed"), change: Change::Unchanged }],
        skipped_files: 0,
        unresolved: 0,
    };
    retain_context(&mut graph);
    let names: Vec<&str> = graph.files[0].functions.iter().map(|f| f.name.as_str()).collect();
    assert_eq!(names, vec!["changed", "caller"]);
    assert_eq!(graph.calls.len(), 1);
}

#[test]
fn filter_patterns_drop_matching_files_and_their_edges() {
    let mut graph = chain();
    filter_graph(&mut graph, &["*.ts".to_string()]);
    assert!(graph.files.is_empty());
    assert!(graph.edges.is_empty());
    let mut graph = chain();
    filter_graph(&mut graph, &["main.ts".to_string()]);
    assert_eq!(graph.files.len(), 5);
    assert_eq!(graph.edges.len(), 3);
}

#[test]
fn paths_join_against_directories() {
    assert_eq!(join("src/app", "../lib/x.ts"), Some("src/lib/x.ts".to_string()));
    assert_eq!(join("src", "./a/./b"), Some("src/a/b".to_string()));
    assert_eq!(join("", "../x"), None);
    assert_eq!(join("/abs", "x"), None);
    assert_eq!(directory("src/app/main.ts"), "src/app");
    assert_eq!(directory("main.ts"), "");
    assert!(contains("src", "src/a.ts"));
    assert!(contains("", "anything.ts"));
    assert!(!contains("src", "srcs/a.ts"));
}

#[test]
fn review_focus_keeps_one_shortest_route_to_each_changed_file() {
    // main → a → b → d and main → c → d, with a second, longer route to d.
    let graph = Graph {
        files: vec![
            node("a.ts", Change::Unchanged),
            node("b.ts", Change::Unchanged),
            node("c.ts", Change::Unchanged),
            node("d.ts", Change::Modified),
            node("main.ts", Change::Modified),
        ],
        edges: vec![
            edge("a.ts", "b.ts", Change::Unchanged),
            edge("b.ts", "d.ts", Change::Unchanged),
            edge("c.ts", "d.ts", Change::Unchanged),
            edge("main.ts", "a.ts", Change::Unchanged),
            edge("main.ts", "c.ts", Change::Unchanged),
        ],
        calls: Vec::new(),
        skipped_files: 0,
        unresolved: 0,
    };
    let changed = vec!["d.ts".to_string(), "main.ts".to_string()];
    let focus = review_dependency_focus(&graph, "main.ts", &changed, false).unwrap();
    assert_eq!(set(&focus.files), BTreeSet::from(["main.ts".into(), "c.ts".into(), "d.ts".into()]));
    assert_eq!(
        focus.edges.iter().cloned().collect::<BTreeSet<_>>(),
        BTreeSet::from([("main.ts".into(), "c.ts".into()), ("c.ts".into(), "d.ts".into())])
    );
    let back = review_dependency_focus(&graph, "d.ts", &changed, false).unwrap();
    assert_eq!(set(&back.files), BTreeSet::from(["main.ts".into(), "c.ts".into(), "d.ts".into()]));
    let only = review_dependency_focus(&graph, "main.ts", &changed, true).unwrap();
    assert_eq!(only.files, vec!["main.ts".to_string()]);
    assert!(review_dependency_focus(&graph, "nope.ts", &changed, false).is_none());
}

#[test]
fn review_focus_skips_the_snapshot_without_the_file() {
    let graph = Graph {
        files: vec![node("new.ts", Change::Added), node("old.ts", Change::Modified)],
        edges: vec![edge("new.ts", "old.ts", Change::Removed)],
        calls: Vec::new(),
        skipped_files: 0,
        unresolved: 0,
    };
    let changed = vec!["old.ts".to_string()];
    let focus = review_dependency_focus(&graph, "new.ts", &changed, false).unwrap();
    assert_eq!(focus.files, vec!["new.ts".to_string()]);
}

#[test]
fn radar_selection_toggles_and_counts_importers() {
    let mut selection = RadarSelection::new();
    selection.toggle_dependency_focus("a.ts".into());
    selection.toggle_dependency_focus("d.ts".into());
    assert_eq!(set(&selection.focused_files), BTreeSet::from(["a.ts".into(), "d.ts".into()]));
    let graph = chain();
    assert_eq!(selection.dependency_focus(Some(&graph)).unwrap().files.len(), 5);
    assert!(selection.dependency_focus(None).is_none());
    selection.toggle_dependency_focus("a.ts".into());
    assert_eq!(selection.focused_files, vec!["d.ts".to_string()]);
    selection.clear_dependency_focus();
    assert!(selection.focused_files.is_empty());
    assert!(selection.dependency_focus(Some(&graph)).is_none());
    selection.toggle_chain("k".into());
    selection.toggle_all(false);
    assert!(selection.expand_all);
    assert!(selection.expanded.is_empty());
    selection.toggle_cycle("c".into());
    selection.toggle_cycle("c".into());
    assert!(selection.cycles.is_empty());
    selection.toggle_file("a.ts".into());
    assert_eq!(selection.expanded_files, vec!["a.ts".to_string()]);

    let mut graph = chain();
    graph.edges.push(edge("unused.ts", "b.ts", Change::Added));
    let counts: BTreeSet<(String, usize)> = dependent_counts(&graph).into_iter().collect();
    assert_eq!(
        counts,
        BTreeSet::from([("a.ts".into(), 1), ("b.ts".into(), 2), ("c.ts".into(), 1), ("d.ts".into(), 1)])
    );
}

#[test]
fn bubbles_show_visible_dependencies_connected_to_the_selection() {
    let focus = DependencyFocus {
        files: vec!["a".into(), "b".into(), "c".into(), "d".into()],
        edges: vec![("a".into(), "b".into()), ("b".into(), "c".into()), ("c".into(), "d".into())],
    };
    let visible = vec!["a".to_string(), "c".to_string(), "d".to_string()];
    let shown = bubble_dependencies(&focus, &"a".to_string(), &visible, false);
    assert_eq!(set(&shown.files), BTreeSet::from(["a".into(), "c".into(), "d".into()]));
    assert_eq!(shown.edges, vec![("c".to_string(), "d".to_string())]);
    let connected = bubble_dependencies(&focus, &"a".to_string(), &visible, true);
    assert_eq!(connected.files, vec!["a".to_string()]);
    assert!(connected.edges.is_empty());
    let from_d = bubble_dependencies(&focus, &"d".to_string(), &visible, true);
    assert_eq!(set(&from_d.files), BTreeSet::from(["c".into(), "d".into()]));
    assert_eq!(from_d.edges.len(), 1);
}
