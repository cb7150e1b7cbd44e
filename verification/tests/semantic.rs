use luminatti::diff::{FileDiff, FileStatus};
use luminatti::semantic::{
    analyze_typescript, compare_symbols, digest, is_typescript_path, normalize_whitespace,
    FileSymbol, SemanticChangeKind, SymbolKind,
};

fn analyze(old: &str, new: &str) -> luminatti::semantic::FileSemanticAnalysis {
    analyze_typescript(&FileDiff {
        filename: "src/example.ts".into(),
        old_content: old.into(),
        new_content: new.into(),
        status: FileStatus::Modified,
        is_binary: false,
    })
}

#[test]
fn ignores_non_typescript_files() {
    let mut diff = FileDiff {
        filename: "src/example.rs".into(),
        old_content: "fn old() {}".into(),
        new_content: "fn new() {}".into(),
        status: FileStatus::Modified,
        is_binary: false,
    };
    let result = analyze_typescript(&diff);
    assert!(result.symbols.is_empty());
    diff.filename = "src/example.tsx".into();
    diff.old_content = "const oldValue = 1;".into();
    diff.new_content = "const newValue = 2;".into();
    assert_eq!(analyze_typescript(&diff).parse_errors, 0);
}

#[test]
fn detects_signature_and_implementation_changes() {
    let result = analyze(
        "export function total(value: number) { return value; }",
        "export function total(value: string): number { return value.length; }",
    );
    assert_eq!(result.symbols[0].name, "total");
    assert!(result
        .changes
        .iter()
        .any(|change| change.kind == SemanticChangeKind::SignatureChanged));
}

#[test]
fn detects_added_and_removed_symbols() {
    let result = analyze("function before() { return 1; }", "function after() { return 2; }");
    assert!(result.changes.iter().any(|change| change.kind == SemanticChangeKind::Removed));
    assert!(result.changes.iter().any(|change| change.kind == SemanticChangeKind::Added));
}

#[test]
fn detects_a_structurally_stable_rename() {
    let result = analyze(
        "function before(value: number) { return value + 1; }",
        "function after(value: number) { return value + 1; }",
    );
    assert_eq!(result.changes.len(), 1);
    assert_eq!(result.changes[0].kind, SemanticChangeKind::Renamed);
    assert_eq!(result.changes[0].previous_name.as_deref(), Some("before"));
    assert_eq!(result.changes[0].name, "after");
}

#[test]
fn typescript_paths_go_by_extension() {
    assert!(is_typescript_path("src/a.ts"));
    assert!(is_typescript_path("a.tsx"));
    assert!(is_typescript_path("lib/x.mts"));
    assert!(is_typescript_path("lib/x.cts/"));
    assert!(!is_typescript_path(".ts"));
    assert!(!is_typescript_path("src/a.js"));
    assert!(!is_typescript_path("src/ts"));
    assert!(!is_typescript_path("a.ts/.."));
}

#[test]
fn whitespace_is_collapsed_and_trimmed() {
    assert_eq!(normalize_whitespace("  a \t b\n\nc  "), "a b c");
    assert_eq!(normalize_whitespace(""), "");
    assert_eq!(normalize_whitespace(" \u{3000} "), "");
}

#[test]
fn digest_is_lowercase_hex_sha256() {
    assert_eq!(
        digest(""),
        "e3b0c44298fc1c149afbf4c8996fb92427ae41e4649b934ca495991b7852b855"
    );
    assert_eq!(
        digest("abc"),
        "ba7816bf8f01cfea414140de5dae2223b00361a396177a9cb410ff61f20015ad"
    );
}

fn symbol(name: &str, line: usize, signature: &str, hash: &str) -> FileSymbol {
    FileSymbol {
        name: name.into(),
        kind: SymbolKind::Function,
        line,
        column: 0,
        end_line: line,
        signature: signature.into(),
        body_hash: hash.into(),
    }
}

#[test]
fn comparing_a_list_with_itself_reports_nothing() {
    let symbols = vec![symbol("a", 1, "function a()", "h1"), symbol("b", 5, "function b()", "h2")];
    assert!(compare_symbols(&symbols, &symbols).is_empty());
}

#[test]
fn moves_need_more_than_two_lines_and_changes_are_latest_first() {
    let old = vec![symbol("a", 1, "function a()", "h1"), symbol("b", 10, "function b()", "h2")];
    let new = vec![symbol("a", 3, "function a()", "h1"), symbol("b", 20, "function b()", "h2")];
    let changes = compare_symbols(&old, &new);
    assert_eq!(changes.len(), 1);
    assert_eq!(changes[0].kind, SemanticChangeKind::Moved);
    assert_eq!(changes[0].detail, "Line 10 → 20");
    let new = vec![symbol("a", 1, "function a()", "h9"), symbol("c", 30, "function c()", "h3")];
    let changes = compare_symbols(&old, &new);
    let kinds: Vec<_> = changes.iter().map(|c| (c.kind, c.name.clone())).collect();
    assert_eq!(
        kinds,
        vec![
            (SemanticChangeKind::Added, "c".to_string()),
            (SemanticChangeKind::Removed, "b".to_string()),
            (SemanticChangeKind::ImplementationChanged, "a".to_string()),
        ]
    );
}

#[test]
fn ambiguous_bodies_are_not_guessed_as_renames() {
    let old = vec![symbol("a", 1, "function a()", "same"), symbol("b", 2, "function b()", "same")];
    let new = vec![symbol("c", 3, "function c()", "same")];
    let changes = compare_symbols(&old, &new);
    assert!(changes.iter().all(|c| c.kind != SemanticChangeKind::Renamed));
    assert_eq!(changes.len(), 3);
}

#[test]
fn symbol_kinds_have_outline_labels() {
    assert_eq!(SymbolKind::Variable.label(), "function variable");
    assert_eq!(SymbolKind::Interface.label(), "interface");
}
