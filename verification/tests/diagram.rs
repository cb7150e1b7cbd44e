use luminatti::compare::compare;
use luminatti::diagram::diagram_files;
use luminatti::radar::{Change, Edge, FileNode, Graph};
use luminatti::radar_state::RadarSelection;
use luminatti::resolver::Snapshot;

fn snapshot(files: &[(&str, &str)]) -> Snapshot {
    let mut snapshot = Snapshot::new();
    for (path, source) in files {
        snapshot.insert_file(path, source.as_bytes());
    }
    snapshot
}

fn shown(graph: &Graph) -> Vec<String> {
    let plan = diagram_files(graph);
    graph
        .files
        .iter()
        .zip(plan.relevant.iter())
        .filter(|(_, shown)| **shown)
        .map(|(f, _)| f.path.clone())
        .collect()
}

fn file(path: &str, change: Change) -> FileNode {
    FileNode { path: path.into(), package: "repo".into(), change, functions: vec![], entry: false }
}

#[test]
fn diagram_files_trace_each_snapshot_on_its_own() {
    let graph = Graph {
        files: vec![
            file("old-root.ts", Change::Unchanged),
            file("bridge.ts", Change::Unchanged),
            file("leaf.ts", Change::Modified),
        ],
        edges: vec![
            Edge { from: "old-root.ts".into(), to: "bridge.ts".into(), change: Change::Removed },
            Edge { from: "bridge.ts".into(), to: "leaf.ts".into(), change: Change::Added },
        ],
        calls: vec![],
        skipped_files: 0,
        unresolved: 0,
    };
    let plan = diagram_files(&graph);
    assert_eq!(plan.seeds, vec![false, false, true]);
    assert_eq!(plan.relevant, vec![false, true, true]);
    assert_eq!(plan.changed_files, 1);
    assert_eq!(plan.isolated_files, 0);
}

#[test]
fn diagram_files_of_a_chain_show_every_importer_and_count_the_isolated_file() {
    let graph = compare(
        snapshot(&[
            ("main.ts", "import './a';"),
            ("a.ts", "import './b'; export function a() { return 1; }"),
            ("b.ts", "export * from './c';"),
            ("c.ts", "import type { Value } from './d';"),
            ("d.ts", "export type Value = string; export function d() { return 1; }"),
            ("unused.ts", "export const unused = 1;"),
        ]),
        snapshot(&[
            ("main.ts", "import './a';"),
            ("a.ts", "import './b'; export function a() { return 2; }"),
            ("b.ts", "export * from './c';"),
            ("c.ts", "import type { Value } from './d';"),
            ("d.ts", "export type Value = string; export function d() { return 2; }"),
            ("unused.ts", "export const unused = 2;"),
        ]),
    );
    let mut paths = shown(&graph);
    paths.sort();
    assert_eq!(paths, ["a.ts", "b.ts", "c.ts", "d.ts", "main.ts"]);
    let plan = diagram_files(&graph);
    assert_eq!(plan.changed_files, 2);
    assert_eq!(plan.isolated_files, 1);
}

#[test]
fn diagram_files_are_empty_without_changes_and_count_isolated_changes() {
    let files = [("main.ts", "import './a';"), ("a.ts", "export const a = 1;")];
    assert!(shown(&compare(snapshot(&files), snapshot(&files))).is_empty());
    let graph = compare(Snapshot::new(), snapshot(&[("alone.ts", "function a() {}")]));
    let plan = diagram_files(&graph);
    assert!(plan.relevant.iter().all(|shown| !shown));
    assert_eq!(plan.changed_files, 0);
    assert_eq!(plan.isolated_files, 1);
}

#[test]
fn diagram_files_keep_both_members_of_a_new_cycle() {
    let graph = compare(Snapshot::new(), snapshot(&[("a.ts", "import './b';"), ("b.ts", "import './a';")]));
    let plan = diagram_files(&graph);
    assert_eq!(plan.relevant, vec![true, true]);
    assert_eq!(plan.changed_files, 2);
    assert_eq!(plan.isolated_files, 0);
}

#[test]
fn stale_graphs_are_dropped_and_fresh_ones_keep_only_present_focus() {
    let graph = Graph {
        files: vec![file("a.ts", Change::Modified)],
        edges: vec![],
        calls: vec![],
        skipped_files: 0,
        unresolved: 0,
    };
    let mut selection = RadarSelection::new();
    selection.toggle_dependency_focus("a.ts".to_string());
    selection.toggle_dependency_focus("gone.ts".to_string());
    assert!(!selection.accept_graph(1, 2, &graph));
    assert_eq!(selection.focused_files, ["a.ts", "gone.ts"]);
    assert!(selection.accept_graph(2, 2, &graph));
    assert_eq!(selection.focused_files, ["a.ts"]);
}
