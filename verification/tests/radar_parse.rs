use luminatti::radar_parse::{grammar_for_path, parse_module};
use luminatti::resolve::JsonValue;
use luminatti::resolver::{Resolver, Snapshot};
use luminatti::syntax::Grammar;

fn names(m: &luminatti::radar_parse::Module) -> Vec<String> {
    m.functions.iter().map(|(n, _)| n.clone()).collect()
}

fn text(s: &str) -> JsonValue {
    JsonValue::Text(s.to_string())
}

fn object(members: &[(&str, JsonValue)]) -> JsonValue {
    JsonValue::Object(members.iter().map(|(k, v)| (k.to_string(), clone_json(v))).collect())
}

fn clone_json(v: &JsonValue) -> JsonValue {
    match v {
        JsonValue::Null => JsonValue::Null,
        JsonValue::Bool(b) => JsonValue::Bool(*b),
        JsonValue::Number(n) => JsonValue::Number(n.clone()),
        JsonValue::Text(t) => JsonValue::Text(t.clone()),
        JsonValue::Array(items) => JsonValue::Array(items.iter().map(clone_json).collect()),
        JsonValue::Object(es) => JsonValue::Object(es.iter().map(|(k, v)| (k.clone(), clone_json(v))).collect()),
    }
}

#[test]
fn grammar_follows_the_extension() {
    assert_eq!(grammar_for_path("a/b.tsx"), Grammar::Tsx);
    assert_eq!(grammar_for_path("a/b.mjs"), Grammar::JavaScript);
    assert_eq!(grammar_for_path("a/b.jsx"), Grammar::JavaScript);
    assert_eq!(grammar_for_path("a/b.ts"), Grammar::TypeScript);
    assert_eq!(grammar_for_path("a/b.mts"), Grammar::TypeScript);
}

#[test]
fn modules_list_imports_exports_and_qualified_callables() {
    let m = parse_module(
        "a.ts",
        "import x, { y as z, type T } from \"./lib\"; import * as ns from './ns'; export { z as w }; export * from './star'; export * as group from './grouped'; export function f(a, { b }) { const c = 1; g(); ns.h(); this.k(); } export default class K { m() {} }",
    );
    assert!(!m.parse_error);
    assert_eq!(m.dependencies, vec!["./grouped", "./lib", "./ns", "./star"]);
    assert_eq!(names(&m), vec!["K.m", "f"]);
    let f = &m.functions.iter().find(|(n, _)| n == "f").unwrap().1;
    assert_eq!(f.line, 1);
    assert_eq!(f.calls, vec!["g", "ns.h", "this.k"]);
    assert_eq!(f.shadows, vec!["a", "b", "c"]);
    let imports: Vec<(String, String, String)> = m.imports.iter().map(|(k, (p, n))| (k.clone(), p.clone(), n.clone())).collect();
    assert_eq!(
        imports,
        vec![
            ("ns".to_string(), "./ns".to_string(), "*".to_string()),
            ("x".to_string(), "./lib".to_string(), "default".to_string()),
            ("z".to_string(), "./lib".to_string(), "y".to_string()),
        ]
    );
    let exports: Vec<(String, Option<String>, String)> = m.exports.iter().map(|(k, (p, n))| (k.clone(), p.clone(), n.clone())).collect();
    assert_eq!(
        exports,
        vec![
            ("default".to_string(), None, "K".to_string()),
            ("f".to_string(), None, "f".to_string()),
            ("w".to_string(), None, "z".to_string()),
        ]
    );
    assert_eq!(m.export_stars, vec!["./star"]);
}

#[test]
fn dynamic_and_required_imports_are_counted() {
    let m = parse_module("a.js", "const a = require('./a'); import('./b'); import(name);");
    assert_eq!(m.dependencies, vec!["./b"]);
    assert_eq!(m.unresolved_dynamic, 2);
}

#[test]
fn broken_sources_keep_only_their_fingerprint() {
    let m = parse_module("a.ts", "export function a( {");
    assert!(m.parse_error);
    assert!(m.functions.is_empty());
    assert!(m.dependencies.is_empty());
    assert_eq!(m.fingerprint.len(), 64);
}

#[test]
fn fingerprints_ignore_comments_and_formatting_of_bodies() {
    let a = parse_module("a.ts", "function f() { return 1; }");
    let b = parse_module("a.ts", "function f() {\n  // note\n  return 1;\n}");
    let c = parse_module("a.ts", "function f() { return 2; }");
    assert_eq!(a.functions[0].1.body, b.functions[0].1.body);
    assert_eq!(a.functions[0].1.signature, b.functions[0].1.signature);
    assert_ne!(a.functions[0].1.body, c.functions[0].1.body);
    assert_ne!(a.fingerprint, b.fingerprint);
}

fn snapshot_with(files: &[(&str, &str)], configs: Vec<(&str, JsonValue)>) -> Snapshot {
    let mut s = Snapshot::new();
    for (path, source) in files {
        s.insert(path, source.as_bytes(), None);
    }
    for (path, value) in configs {
        s.insert(path, b"{}", Some(value));
    }
    s
}

#[test]
fn resolver_follows_relative_paths_aliases_and_packages() {
    let snapshot = snapshot_with(
        &[
            ("src/app.ts", "export const app = 1;"),
            ("src/lib/index.ts", "export const lib = 1;"),
            ("src/util.js", "export const util = 1;"),
            ("pkg/src/main.ts", "export const main = 1;"),
            ("pkg/src/extra/x.ts", "export const x = 1;"),
        ],
        vec![
            (
                "tsconfig.json",
                object(&[(
                    "compilerOptions",
                    object(&[("baseUrl", text(".")), ("paths", object(&[("@lib/*", JsonValue::Array(vec![text("src/lib/*")]))]))]),
                )]),
            ),
            (
                "pkg/package.json",
                object(&[
                    ("name", text("@demo/pkg")),
                    ("exports", object(&[(".", text("./src/main.ts")), ("./extra/*", text("./src/extra/*.ts"))])),
                ]),
            ),
        ],
    );
    let r = Resolver::new(&snapshot);
    assert_eq!(r.resolve("src/app.ts", "./lib"), Some("src/lib/index.ts".to_string()));
    assert_eq!(r.resolve("src/app.ts", "./util.js"), Some("src/util.js".to_string()));
    assert_eq!(r.resolve("src/app.ts", "../../outside"), None);
    assert_eq!(r.resolve("src/app.ts", "@lib/index"), Some("src/lib/index.ts".to_string()));
    assert_eq!(r.resolve("src/app.ts", "src/app"), Some("src/app.ts".to_string()));
    assert_eq!(r.resolve("src/app.ts", "@demo/pkg"), Some("pkg/src/main.ts".to_string()));
    assert_eq!(r.resolve("src/app.ts", "@demo/pkg/extra/x"), Some("pkg/src/extra/x.ts".to_string()));
    assert_eq!(r.resolve("src/app.ts", "react"), None);
    assert_eq!(r.package("pkg/src/main.ts"), "@demo/pkg");
    assert_eq!(r.package("src/app.ts"), "src");
    assert_eq!(r.package("top.ts"), "repository");
    assert!(r.is_entry("pkg/src/main.ts"));
    assert!(!r.is_entry("src/app.ts"));
}

#[test]
fn resolver_reports_edges_and_unknown_imports() {
    let snapshot = snapshot_with(
        &[
            ("a.ts", "import './b'; import './a'; import 'missing'; import(x);"),
            ("b.ts", "export const b = 1;"),
        ],
        vec![],
    );
    let r = Resolver::new(&snapshot);
    let (edges, unknown) = r.edges();
    assert_eq!(edges, vec![("a.ts".to_string(), "b.ts".to_string())]);
    assert_eq!(
        unknown,
        vec![("a.ts".to_string(), "<dynamic:0>".to_string()), ("a.ts".to_string(), "missing".to_string())]
    );
}

#[test]
fn snapshots_skip_unreadable_and_broken_files() {
    let mut s = Snapshot::new();
    s.insert("bad.ts", &[0xff, 0xfe], None);
    s.insert("config.json", b"{", None);
    s.insert("broken.ts", b"function (", None);
    s.insert("notes.md", b"# notes", None);
    s.insert("ok.ts", b"export const ok = 1;", None);
    assert_eq!(s.skipped, vec!["bad.ts", "broken.ts", "config.json"]);
    assert_eq!(s.hashes.len(), 5);
    assert_eq!(s.sources.iter().map(|(p, _)| p.as_str()).collect::<Vec<_>>(), vec!["broken.ts", "config.json", "notes.md", "ok.ts"]);
    assert_eq!(s.modules.iter().map(|(p, _)| p.as_str()).collect::<Vec<_>>(), vec!["broken.ts", "ok.ts"]);
    assert!(s.has_source("ok.ts"));
    assert!(!s.has_source("bad.ts"));
    s.mark_skipped("gone.ts");
    assert_eq!(s.skipped, vec!["bad.ts", "broken.ts", "config.json", "gone.ts"]);
}
