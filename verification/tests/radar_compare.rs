use luminatti::calls::filter_graph;
use luminatti::compare::compare;
use luminatti::radar::{dependency_focus, Change, FileNode, Graph};
use luminatti::resolver::Snapshot;
use std::collections::BTreeSet;

fn snapshot(files: &[(&str, &str)]) -> Snapshot {
    let mut snapshot = Snapshot::new();
    for (path, source) in files {
        snapshot.insert_file(path, source.as_bytes());
    }
    snapshot
}

fn file<'a>(graph: &'a Graph, path: &str) -> &'a FileNode {
    graph.files.iter().find(|f| f.path == path).unwrap()
}

fn has_file(graph: &Graph, path: &str) -> bool {
    graph.files.iter().any(|f| f.path == path)
}

fn chain() -> Graph {
    compare(
        snapshot(&[
            ("main.ts", "import './a';"),
            ("a.ts", "import './b'; export function a() { return 1; }"),
            ("b.ts", "export * from './c';"),
            ("c.ts", "import type { Value } from './d';"),
            ("d.ts", "export type Value = string; export function d() { return 1; }"),
            ("unused.ts", "export const unused = 1;"),
        ]),
        snapshot(&[
            ("main.ts", "import './a';"),
            ("a.ts", "import './b'; export function a() { return 2; }"),
            ("b.ts", "export * from './c';"),
            ("c.ts", "import type { Value } from './d';"),
            ("d.ts", "export type Value = string; export function d() { return 2; }"),
            ("unused.ts", "export const unused = 2;"),
        ]),
    )
}

#[test]
fn dependency_focus_includes_transitive_imports_and_parent_paths_to_roots() {
    let graph = chain();
    let focus = dependency_focus(&graph, "a.ts").unwrap();
    assert_eq!(
        focus.files.iter().cloned().collect::<BTreeSet<String>>(),
        BTreeSet::from(["a.ts".into(), "b.ts".into(), "c.ts".into(), "d.ts".into(), "main.ts".into()])
    );
    assert_eq!(
        focus.edges.iter().cloned().collect::<BTreeSet<(String, String)>>(),
        BTreeSet::from([
            ("a.ts".into(), "b.ts".into()),
            ("b.ts".into(), "c.ts".into()),
            ("c.ts".into(), "d.ts".into()),
            ("main.ts".into(), "a.ts".into()),
        ])
    );
    assert!(!focus.files.contains(&"unused.ts".to_string()));
}

#[test]
fn dependency_focus_does_not_include_sibling_branches_from_a_parent() {
    let graph = compare(
        Snapshot::new(),
        snapshot(&[
            ("root.ts", "import './selected'; import './sibling';"),
            ("selected.ts", "import './leaf';"),
            ("sibling.ts", "export const sibling = 1;"),
            ("leaf.ts", "export const leaf = 1;"),
        ]),
    );
    let focus = dependency_focus(&graph, "selected.ts").unwrap();
    assert_eq!(
        focus.files.iter().cloned().collect::<BTreeSet<String>>(),
        BTreeSet::from(["root.ts".into(), "selected.ts".into(), "leaf.ts".into()])
    );
    assert!(!focus.files.contains(&"sibling.ts".to_string()));
}

#[test]
fn filters_remove_files_and_edges() {
    let mut graph = chain();
    filter_graph(&mut graph, &["unused.ts".into(), "c.ts".into()]);
    assert!(!has_file(&graph, "c.ts"));
    assert!(graph.edges.iter().all(|e| e.from != "c.ts" && e.to != "c.ts"));
    assert!(!has_file(&graph, "unused.ts"));
}

#[test]
fn resolves_relative_side_effect_type_reexport_dynamic_and_javascript_imports() {
    let graph = compare(
        Snapshot::new(),
        snapshot(&[
            ("main.ts", "import './side'; import type { T } from './types'; export * from './barrel'; const load = () => import('./lazy.js');"),
            ("side.ts", "export {};"),
            ("types.ts", "export type T = string;"),
            ("barrel.ts", "export * from './impl';"),
            ("impl.ts", "export const value = 1;"),
            ("lazy.js", "export const load = () => 1;"),
        ]),
    );
    assert_eq!(graph.edges.len(), 5);
    assert_eq!(graph.unresolved, 0);
    assert!(graph.edges.iter().any(|e| e.from == "main.ts" && e.to == "barrel.ts"));
    assert!(graph.edges.iter().any(|e| e.from == "barrel.ts" && e.to == "impl.ts"));
}

#[test]
fn resolves_inherited_jsonc_aliases_and_workspace_packages_from_each_snapshot() {
    let graph = compare(
        Snapshot::new(),
        snapshot(&[
            ("tsconfig.base.json", "{ // config\n \"compilerOptions\": {\"baseUrl\":\".\",\"paths\":{\"@core/*\":[\"packages/core/src/*\",],},},}"),
            ("apps/api/tsconfig.json", r#"{"extends":"../../tsconfig.base.json"}"#),
            ("apps/api/package.json", r#"{"name":"@app/api","source":"./main.ts"}"#),
            ("apps/api/main.ts", "import { read } from '@core/read'; import { send } from '@app/mail';"),
            ("packages/core/src/read.ts", "export function read() {}"),
            ("packages/mail/package.json", r#"{"name":"@app/mail","exports":{".":{"import":"./src/index.ts"}}}"#),
            ("packages/mail/src/index.ts", "export function send() {}"),
        ]),
    );
    assert_eq!(graph.edges.len(), 2);
    assert_eq!(graph.unresolved, 0);
    assert_eq!(file(&graph, "packages/mail/src/index.ts").package, "@app/mail");
    assert!(file(&graph, "apps/api/main.ts").entry);
}

#[test]
fn external_and_dynamic_imports_are_reported_without_name_guessing() {
    let graph = compare(
        Snapshot::new(),
        snapshot(&[
            ("a.ts", "import { run } from 'unknown'; const f = () => import(name);"),
            ("b.ts", "export function run() {}"),
        ]),
    );
    assert!(graph.edges.is_empty());
    assert_eq!(graph.unresolved, 2);
}

#[test]
fn file_changes_include_non_function_edits_but_only_changed_functions_are_listed() {
    let old = "import './dep'; export const value = 1; function stable() {} function edit() { return 'a b'; }";
    let new = "import './dep'; export const value = 2; function stable() {} function edit() { return 'a  b'; }";
    let graph = compare(
        snapshot(&[("a.ts", old), ("dep.ts", "export {};")]),
        snapshot(&[("a.ts", new), ("dep.ts", "export {};")]),
    );
    assert_eq!(file(&graph, "a.ts").change, Change::Modified);
    assert_eq!(file(&graph, "a.ts").functions.len(), 1);
    assert_eq!(file(&graph, "a.ts").functions[0].name, "edit");
    let commented = format!("// comment\n{old}");
    let graph = compare(snapshot(&[("a.ts", old)]), snapshot(&[("a.ts", &commented)]));
    assert_eq!(file(&graph, "a.ts").change, Change::Modified);
    assert!(file(&graph, "a.ts").functions.is_empty());
}

#[test]
fn named_methods_nested_functions_and_arrow_fields_are_qualified() {
    let graph = compare(
        Snapshot::new(),
        snapshot(&[("a.ts", "class Worker { run() {} send = () => {}; } function outer() { function inner() {} } const object = { save() {}, load: () => {} }; const arrow = () => 1;")]),
    );
    let names = file(&graph, "a.ts").functions.iter().map(|f| f.name.as_str()).collect::<BTreeSet<_>>();
    assert_eq!(
        names,
        BTreeSet::from(["Worker.run", "Worker.send", "outer", "outer.inner", "object.save", "object.load", "arrow"])
    );
}

#[test]
fn overload_and_arrow_signature_changes_are_annotated() {
    let graph = compare(
        snapshot(&[("a.ts", "function send(x: string): string; function send(x: any): any { return x; } const f: () => number = () => 1;")]),
        snapshot(&[("a.ts", "function send(x: string | number): string; function send(x: any): any { return x; } const f: () => string = () => '1';")]),
    );
    assert_eq!(file(&graph, "a.ts").functions.len(), 2);
    assert!(file(&graph, "a.ts").functions.iter().all(|f| f.change == Change::Modified));
}

#[test]
fn removed_functions_use_the_old_line_and_new_functions_use_the_new_line() {
    let graph = compare(
        snapshot(&[("a.ts", "\nfunction removed() {}\nfunction stable() {}")]),
        snapshot(&[("a.ts", "function stable() {}\n\n\nfunction added() {}")]),
    );
    let functions = &file(&graph, "a.ts").functions;
    assert!(functions.iter().any(|f| f.name == "removed" && f.line == 2 && f.change == Change::Removed));
    assert!(functions.iter().any(|f| f.name == "added" && f.line == 4 && f.change == Change::Added));
}

#[test]
fn default_arrows_and_nested_objects_have_distinct_callable_annotations() {
    let graph = compare(
        Snapshot::new(),
        snapshot(&[("main.ts", "export default () => 1; const o = { first: { run() {} }, second: { run() {} } };")]),
    );
    let names = file(&graph, "main.ts").functions.iter().map(|f| f.name.as_str()).collect::<BTreeSet<_>>();
    assert_eq!(names, BTreeSet::from(["default", "o.first.run", "o.second.run"]));
}

#[test]
fn method_overloads_only_change_the_matching_qualified_method() {
    let a = "class A { run(x: string): string; run(x: any): any { return x; } } class B { run(x: any): any { return x; } }";
    let b = "class A { run(x: string | number): string; run(x: any): any { return x; } } class B { run(x: any): any { return x; } }";
    let graph = compare(snapshot(&[("main.ts", a)]), snapshot(&[("main.ts", b)]));
    assert_eq!(file(&graph, "main.ts").functions.len(), 1);
    assert_eq!(file(&graph, "main.ts").functions[0].name, "A.run");
}

#[test]
fn calls_resolve_default_imports_nested_functions_and_this_methods() {
    let graph = compare(
        Snapshot::new(),
        snapshot(&[
            ("main.ts", "import run from './default'; function start() { function inner() { return run(); } return inner(); } class Worker { run() { return this.send(); } send() {} }"),
            ("default.ts", "export default () => 1;"),
        ]),
    );
    let pairs = graph.calls.iter().map(|e| (e.from.name.as_str(), e.to.name.as_str())).collect::<BTreeSet<_>>();
    assert_eq!(
        pairs,
        BTreeSet::from([("start", "start.inner"), ("start.inner", "default"), ("Worker.run", "Worker.send")])
    );
}

#[test]
fn calls_do_not_guess_dynamic_shadowed_or_ambiguous_targets() {
    let graph = compare(
        Snapshot::new(),
        snapshot(&[
            ("main.ts", "import { run } from './barrel'; function a(run: () => void) { run(); } function b() { const run = other; run(); } function c() { object[method](); } function d() { run(); } function outer(run: () => void) { function inner() { run(); } }"),
            ("barrel.ts", "export * from './a'; export * from './b';"),
            ("a.ts", "export function run() {}"),
            ("b.ts", "export function run() {}"),
        ]),
    );
    assert!(graph.calls.is_empty(), "{:?}", graph.calls);
}

#[test]
fn filtering_a_function_bridge_removes_detached_transitive_context() {
    let old = [
        ("app.ts", "import { run } from './bridge.test'; function start() { return run() + 1; }"),
        ("bridge.test.ts", "import { leaf } from './leaf'; export function run() { return leaf(); }"),
        ("leaf.ts", "export function leaf() { return 1; }"),
    ];
    let mut new = old;
    new[0].1 = "import { run } from './bridge.test'; function start() { return run() + 2; }";
    let mut graph = compare(snapshot(&old), snapshot(&new));
    assert!(!file(&graph, "leaf.ts").functions.is_empty());
    filter_graph(&mut graph, &["*.test.ts".into()]);
    assert!(graph.calls.is_empty());
    assert!(file(&graph, "leaf.ts").functions.is_empty());
}
