use luminatti::diff::{ChangeType, FileDiff, FileStatus};
use luminatti::model::{Annotation, NativeFile, NativeRow, ReviewModel, ReviewSummary};
use luminatti::workspace::{filter_status, is_path_filtered, project_name_for, repository_paths};

#[test]
fn glob_filters_match_nested_test_files_without_hiding_sources() {
    let patterns = vec!["*.test.ts".to_string()];
    assert!(is_path_filtered("src/editor/widget.test.ts", &patterns));
    assert!(!is_path_filtered("src/editor/widget.ts", &patterns));
}

#[test]
fn patterns_that_do_not_compile_hide_nothing() {
    let patterns = vec!["a[".to_string()];
    assert!(!is_path_filtered("a[", &patterns));
    assert!(!is_path_filtered("anything", &[]));
}

#[test]
fn project_names_come_from_the_last_component() {
    assert_eq!(project_name_for("/home/me/luminatti"), "luminatti");
    assert_eq!(project_name_for("/home/me/luminatti/"), "luminatti");
    assert_eq!(project_name_for("/"), "project");
}

#[test]
fn repository_paths_merge_changed_files_in_order_without_repeats() {
    let listed = vec!["src/b.rs".to_string(), "README.md".to_string(), "src/b.rs".to_string()];
    let changed = vec![NativeFile::summary("src/a.rs".into(), FileStatus::Deleted), NativeFile::summary("README.md".into(), FileStatus::Modified)];
    let paths = repository_paths(&listed, &changed);
    assert_eq!(paths, vec!["README.md", "src/a.rs", "src/b.rs"]);
}

fn file_with(path: &str, symbols: usize, changes: usize, errors: usize) -> NativeFile {
    let mut f = NativeFile::summary(path.into(), FileStatus::Modified);
    for i in 0..symbols {
        f.semantic.symbols.push(luminatti::semantic::FileSymbol {
            name: format!("s{i}"),
            kind: luminatti::semantic::SymbolKind::Function,
            line: i + 1,
            column: 1,
            end_line: i + 1,
            signature: String::new(),
            body_hash: String::new(),
        });
    }
    for i in 0..changes {
        f.semantic.changes.push(luminatti::semantic::SemanticChange {
            kind: luminatti::semantic::SemanticChangeKind::Added,
            symbol_kind: luminatti::semantic::SymbolKind::Function,
            name: format!("c{i}"),
            previous_name: None,
            old_line: None,
            new_line: Some(i + 1),
            detail: String::new(),
        });
    }
    f.semantic.parse_errors = errors;
    f
}

#[test]
fn review_summary_can_be_scoped_to_visible_files() {
    let model = ReviewModel::new(
        vec![file_with("a.ts", 2, 1, 0), file_with("b.ts", 0, 0, 3), file_with("c.rs", 0, 0, 0), file_with("d.ts", 1, 2, 1)],
        None,
        Vec::new(),
    );
    let all = model.review_summary_for_indices(&[0, 1, 2, 3]);
    assert_eq!(all, ReviewSummary { typescript_files: 2, changed_symbols: 3, parse_errors: 4 });
    let scoped = model.review_summary_for_indices(&[3, 9]);
    assert_eq!(scoped, ReviewSummary { typescript_files: 1, changed_symbols: 2, parse_errors: 1 });
    assert_eq!(model.review_summary_for_indices(&[]), ReviewSummary::default());
}

#[test]
fn a_new_model_selects_the_focused_file() {
    let files = vec![NativeFile::summary("a".into(), FileStatus::Modified), NativeFile::summary("b".into(), FileStatus::Added)];
    let model = ReviewModel::new(files, Some("b"), Vec::new());
    assert_eq!(model.selected, 1);
    assert_eq!(model.selected_file().map(|f| f.path.as_str()), Some("b"));
    let files = vec![NativeFile::summary("a".into(), FileStatus::Modified)];
    let model = ReviewModel::new(files, Some("missing"), Vec::new());
    assert_eq!(model.selected, 0);
    let empty = ReviewModel::new(Vec::new(), None, Vec::new());
    assert!(empty.selected_file().is_none());
}

fn numbered_row(old: Option<usize>, new: Option<usize>, change: ChangeType) -> NativeRow {
    NativeRow { old_number: old, old_text: "old line".into(), new_number: new, new_text: "new".into(), change }
}

#[test]
fn annotations_start_at_the_first_numbered_line() {
    let mut f = NativeFile::summary("src/lib.rs".into(), FileStatus::Modified);
    f.rows = vec![numbered_row(None, None, ChangeType::Equal), numbered_row(Some(7), None, ChangeType::Delete)];
    let mut model = ReviewModel::new(vec![f], None, vec![Annotation { file: "x".into(), line: 1, body: "b".into() }]);
    model.add_annotation();
    assert_eq!(model.annotations.len(), 2);
    assert_eq!(model.annotations[1], Annotation {
        file: "src/lib.rs".into(),
        line: 7,
        body: "Review this change with the AI harness.".into(),
    });
    let mut none = ReviewModel::new(Vec::new(), None, Vec::new());
    none.add_annotation();
    assert!(none.annotations.is_empty());
    let mut plain = ReviewModel::new(vec![NativeFile::summary("p".into(), FileStatus::Added)], None, Vec::new());
    plain.add_annotation();
    assert_eq!(plain.annotations[0].line, 1);
}

#[test]
fn file_records_count_rows_and_fingerprint_both_versions() {
    let diff = FileDiff {
        filename: "notes.txt".into(),
        old_content: "a\n".into(),
        new_content: "b\n".into(),
        status: FileStatus::Modified,
        is_binary: false,
    };
    let rows = vec![
        numbered_row(Some(1), Some(1), ChangeType::Modified),
        numbered_row(None, Some(120), ChangeType::Insert),
        numbered_row(Some(3), None, ChangeType::Delete),
        numbered_row(Some(4), Some(121), ChangeType::Equal),
    ];
    let f = NativeFile::from_diff_rows(&diff, "M", rows);
    assert_eq!((f.additions, f.deletions), (2, 2));
    assert_eq!((f.max_old_chars, f.max_new_chars), (8, 3));
    assert_eq!(f.line_number_digits, 3);
    assert_eq!(f.review_fingerprint, "dac274590c524d460ad0b939834463dfb918506a68656413d5937dfc98e260c1");
    assert_eq!(f.path, "notes.txt");
    assert_eq!(f.new_content, "b\n");
    let other = NativeFile::from_diff_rows(&diff, "A", Vec::new());
    assert_ne!(other.review_fingerprint, f.review_fingerprint);
    assert_eq!(other.line_number_digits, 2);
    let binary = NativeFile::from_diff_rows(&FileDiff { is_binary: true, ..diff }, "M", vec![numbered_row(Some(1), Some(1), ChangeType::Insert)]);
    assert!(binary.rows.is_empty());
    assert_eq!((binary.additions, binary.deletions), (0, 0));
    let observed = binary.with_observed_at(42);
    assert_eq!(observed.observed_at_millis, 42);
}

#[test]
fn review_fingerprints_are_sha256_hex() {
    let f = luminatti::model::review_fingerprint("", "", "");
    // SHA-256 of two zero bytes.
    assert_eq!(f, "96a296d224f285c67bee93c30f8a309157f0daa35dc5b87e410b78630a09cfc7");
}

#[test]
fn deeply_nested_alternates_filter_nothing_and_do_not_panic() {
    let pattern = format!("{}a{}", "{".repeat(300), "}".repeat(300));
    let patterns = vec![pattern, "*.md".to_string()];
    assert!(!is_path_filtered("a", &patterns));
    assert!(is_path_filtered("notes.md", &patterns));
}

#[test]
fn filter_status_counts_active_filters_and_hidden_files() {
    assert_eq!(filter_status(0, 7), "No filters active");
    assert_eq!(filter_status(2, 13), "2 active · 13 hidden");
}
