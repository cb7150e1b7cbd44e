use luminatti::diff::{ChangeType, FileStatus};
use luminatti::diff::ChangeType::{Delete, Equal, Insert, Modified};
use luminatti::file_tree::build_file_tree_entries;
use luminatti::layout::{
    change_start_rows, display_rows_for_file, display_rows_from_sections,
    logical_unchanged_sections, remap_tabs_after_refresh, unchanged_sections, DiffDisplayRow,
    FileTreeEntry, LogTab, ReviewTab, UnchangedSection,
};
use luminatti::lsp::LspSymbol;
use luminatti::model::{NativeFile, NativeRow};
use luminatti::semantic::FileSemanticAnalysis;
use luminatti::workspace::{hide_unchanged_sections_for_file, sort_files_alphabetically};

fn file(path: &str) -> NativeFile {
    NativeFile {
        path: path.to_string(),
        status: FileStatus::Modified,
        additions: 0,
        deletions: 0,
        review_fingerprint: path.to_string(),
        rows: Vec::new(),
        max_old_chars: 0,
        max_new_chars: 0,
        line_number_digits: 2,
        new_content: String::new(),
        semantic: FileSemanticAnalysis::default(),
        observed_at_millis: 0,
    }
}

fn row(change: ChangeType) -> NativeRow {
    NativeRow {
        old_number: None,
        old_text: String::new(),
        new_number: None,
        new_text: String::new(),
        change,
    }
}

fn numbered(change: ChangeType, line: usize) -> NativeRow {
    NativeRow {
        old_number: Some(line),
        old_text: String::new(),
        new_number: Some(line),
        new_text: String::new(),
        change,
    }
}

fn file_with_rows(path: &str, rows: Vec<NativeRow>) -> NativeFile {
    let mut f = file(path);
    f.rows = rows;
    f
}

fn symbol(name: &str, line: usize, end_line: usize) -> LspSymbol {
    LspSymbol { name: name.to_string(), kind: "function".to_string(), line, end_line, depth: 0 }
}

#[test]
fn change_navigation_groups_adjacent_changed_rows_into_one_change() {
    let rows = vec![row(Equal), row(Modified), row(Insert), row(Equal), row(Insert), row(Equal)];
    assert_eq!(change_start_rows(&rows), vec![1, 4]);
}

#[test]
fn collapsed_unchanged_sections_render_as_a_single_expandable_row() {
    let mut f = file_with_rows("src/example.rs", vec![row(Equal), row(Equal), row(Insert), row(Equal)]);
    f.additions = 1;
    f.review_fingerprint = "test-fingerprint".to_string();
    let sections = unchanged_sections(&f.path, &f.rows);
    assert_eq!(sections.len(), 2);
    assert_eq!((sections[0].start_row, sections[0].end_row), (0, 2));
    assert_eq!((sections[1].start_row, sections[1].end_row), (3, 4));

    let collapsed = vec![sections[0].clone()];
    let display_rows = display_rows_for_file(&f, &collapsed, &[]);
    assert!(matches!(
        display_rows.as_slice(),
        [
            DiffDisplayRow::CollapsedUnchanged { section },
            DiffDisplayRow::Code { source_row: 2 },
            DiffDisplayRow::Code { source_row: 3 },
        ] if (section.start_row, section.end_row) == (0, 2)
    ));
}

#[test]
fn hiding_unchanged_sections_keeps_each_visited_file_collapsed() {
    let first = file_with_rows("src/first.rs", vec![row(Equal), row(Insert), row(Equal)]);
    let second = file_with_rows("src/second.rs", vec![row(Equal), row(Insert)]);
    let mut collapsed: Vec<UnchangedSection> = Vec::new();

    hide_unchanged_sections_for_file(&first, &mut collapsed, &[]);
    hide_unchanged_sections_for_file(&second, &mut collapsed, &[]);

    assert!(unchanged_sections(&first.path, &first.rows).iter().all(|section| collapsed.contains(section)));
    assert!(unchanged_sections(&second.path, &second.rows).iter().all(|section| collapsed.contains(section)));
}

#[test]
fn hiding_a_file_twice_adds_nothing_new() {
    let f = file_with_rows("a.rs", vec![row(Equal), row(Insert), row(Equal)]);
    let mut collapsed = Vec::new();
    hide_unchanged_sections_for_file(&f, &mut collapsed, &[]);
    let once = collapsed.len();
    assert_eq!(once, 2);
    hide_unchanged_sections_for_file(&f, &mut collapsed, &[]);
    assert!(collapsed.len() >= once);
    assert!(unchanged_sections(&f.path, &f.rows).iter().all(|s| collapsed.contains(s)));
}

#[test]
fn unchanged_runs_cover_equal_rows_only() {
    let rows = vec![row(Insert), row(Equal), row(Equal), row(Delete), row(Equal)];
    let sections = unchanged_sections("f.rs", &rows);
    let ranges: Vec<(usize, usize)> = sections.iter().map(|s| (s.start_row, s.end_row)).collect();
    assert_eq!(ranges, vec![(1, 3), (4, 5)]);
    assert!(sections.iter().all(|s| s.file_path == "f.rs" && s.label.is_none()));
    assert!(unchanged_sections("f.rs", &[]).is_empty());
    assert!(change_start_rows(&[]).is_empty());
}

#[test]
fn sections_are_equal_whatever_their_label() {
    let a = UnchangedSection { file_path: "a".into(), start_row: 1, end_row: 3, label: None };
    let b = UnchangedSection { file_path: "a".into(), start_row: 1, end_row: 3, label: Some("f".into()) };
    let c = UnchangedSection { file_path: "a".into(), start_row: 1, end_row: 4, label: None };
    assert!(a == b);
    assert!(a != c);
}

#[test]
fn display_rows_show_every_row_without_collapsed_sections() {
    let sections = vec![UnchangedSection { file_path: "f".into(), start_row: 1, end_row: 3, label: None }];
    let rows = display_rows_from_sections(4, &sections, &[]);
    let shown: Vec<usize> = rows
        .iter()
        .map(|r| match r {
            DiffDisplayRow::Code { source_row } => *source_row,
            DiffDisplayRow::CollapsedUnchanged { .. } => usize::MAX,
        })
        .collect();
    assert_eq!(shown, vec![0, 1, 2, 3]);
    let folded = display_rows_from_sections(4, &sections, &sections);
    assert_eq!(folded.len(), 3);
    assert!(matches!(folded[1], DiffDisplayRow::CollapsedUnchanged { ref section } if section.start_row == 1));
}

#[test]
fn logical_sections_split_runs_at_declarations_and_label_them() {
    let rows = vec![
        numbered(Equal, 1),
        numbered(Equal, 2),
        numbered(Equal, 3),
        numbered(Equal, 4),
        numbered(Equal, 5),
        numbered(Equal, 6),
        numbered(Insert, 7),
    ];
    let f = file_with_rows("src/a.ts", rows);
    let symbols = vec![symbol("first", 1, 3), symbol("second", 4, 6)];
    let sections = logical_unchanged_sections(&f, &symbols);
    let got: Vec<(usize, usize, Option<String>)> =
        sections.iter().map(|s| (s.start_row, s.end_row, s.label.clone())).collect();
    assert_eq!(
        got,
        vec![
            (0, 2, Some("first".to_string())),
            (3, 5, Some("second".to_string())),
        ]
    );
    assert!(sections.iter().all(|s| s.file_path == "src/a.ts"));
}

#[test]
fn logical_sections_without_symbols_are_the_unchanged_runs() {
    let f = file_with_rows("x.rs", vec![row(Equal), row(Equal), row(Insert)]);
    let sections = logical_unchanged_sections(&f, &[]);
    assert_eq!(sections, unchanged_sections(&f.path, &f.rows));
    assert!(sections.iter().all(|s| s.label.is_none()));
}

#[test]
fn refresh_closes_tabs_for_files_that_are_no_longer_different() {
    let previous_files = vec![file("src/changed.rs"), file("src/remaining.rs")];
    let previous_tabs = vec![
        ReviewTab { file_index: 0, is_preview: false },
        ReviewTab { file_index: 1, is_preview: true },
    ];
    let refreshed_files = vec![file("src/remaining.rs")];

    let (tabs, selected) = remap_tabs_after_refresh(&previous_files, &previous_tabs, 0, &refreshed_files);

    assert_eq!(tabs.len(), 1);
    assert_eq!(tabs[0].file_index, 0);
    assert!(tabs[0].is_preview);
    assert_eq!(selected, 0);
}

#[test]
fn refresh_follows_the_selected_file_to_its_new_index() {
    let previous_files = vec![file("a"), file("b")];
    let tabs = vec![ReviewTab { file_index: 1, is_preview: false }];
    let refreshed = vec![file("c"), file("b"), file("a")];
    let (tabs, selected) = remap_tabs_after_refresh(&previous_files, &tabs, 0, &refreshed);
    assert_eq!(selected, 2);
    assert_eq!(tabs.len(), 1);
    assert_eq!(tabs[0].file_index, 1);
    assert!(!tabs[0].is_preview);
    let (tabs, selected) = remap_tabs_after_refresh(&[], &[], 0, &[]);
    assert!(tabs.is_empty());
    assert_eq!(selected, 0);
}

#[test]
fn log_tab_titles() {
    assert_eq!(LogTab::Lsp.title(), "LSP Logs");
}

#[test]
fn sorts_files_alphabetically() {
    let mut files = vec![file("src/zebra.rs"), file("README.md"), file("src/apple.rs")];
    sort_files_alphabetically(&mut files);
    assert_eq!(
        files.iter().map(|file| file.path.as_str()).collect::<Vec<_>>(),
        vec!["README.md", "src/apple.rs", "src/zebra.rs"]
    );
}

#[test]
fn tree_view_nests_files_and_hides_collapsed_descendants() {
    let paths = vec![
        "src/desktop/mod.rs".to_string(),
        "src/desktop/model.rs".to_string(),
        "README.md".to_string(),
    ];
    let entries = build_file_tree_entries(&paths, &[], false);
    assert!(matches!(
        entries.as_slice(),
        [
            FileTreeEntry::Directory { name, depth: 0, .. },
            FileTreeEntry::Directory { name: desktop, depth: 1, .. },
            FileTreeEntry::File { index: 0, depth: 2 },
            FileTreeEntry::File { index: 1, depth: 2 },
            FileTreeEntry::File { index: 2, depth: 0 },
        ] if name == "src" && desktop == "desktop"
    ));

    let collapsed = vec!["src".to_string()];
    let entries = build_file_tree_entries(&paths, &collapsed, false);
    assert!(matches!(
        entries.as_slice(),
        [
            FileTreeEntry::Directory { name, collapsed: true, .. },
            FileTreeEntry::File { index: 2, depth: 0 },
        ] if name == "src"
    ));
}

#[test]
fn compact_tree_view_combines_unbranched_directory_chains() {
    let paths = vec![
        "packages/business/src/connectors/netsuite/client.rs".to_string(),
        "packages/business/src/connectors/netsuite/types.rs".to_string(),
        "packages/business/src/services/people/profile.rs".to_string(),
        "README.md".to_string(),
    ];

    let entries = build_file_tree_entries(&paths, &[], true);
    assert!(matches!(
        entries.as_slice(),
        [
            FileTreeEntry::Directory { name: root, path: root_path, depth: 0, .. },
            FileTreeEntry::Directory { name: connectors, depth: 1, .. },
            FileTreeEntry::File { index: 0, depth: 2 },
            FileTreeEntry::File { index: 1, depth: 2 },
            FileTreeEntry::Directory { name: services, depth: 1, .. },
            FileTreeEntry::File { index: 2, depth: 2 },
            FileTreeEntry::File { index: 3, depth: 0 },
        ] if root == "packages/business/src"
            && root_path == "packages/business/src"
            && connectors == "connectors/netsuite"
            && services == "services/people"
    ));
}

#[test]
fn compacting_stops_at_a_collapsed_directory() {
    let paths = vec!["a/b/c/f.rs".to_string()];
    let collapsed = vec!["a/b".to_string()];
    let entries = build_file_tree_entries(&paths, &collapsed, true);
    assert!(matches!(
        entries.as_slice(),
        [FileTreeEntry::Directory { name, path, depth: 0, collapsed: true }] if name == "a/b" && path == "a/b"
    ));
    assert_eq!(entries[0].depth(), 0);
}

#[test]
fn tree_directories_are_in_name_order_and_paths_nest() {
    let paths = vec!["b/x.rs".to_string(), "a/y.rs".to_string(), "a/c/z.rs".to_string()];
    let entries = build_file_tree_entries(&paths, &[], false);
    let described: Vec<String> = entries
        .iter()
        .map(|e| match e {
            FileTreeEntry::Directory { path, depth, .. } => format!("d:{path}:{depth}"),
            FileTreeEntry::File { index, depth } => format!("f:{index}:{depth}"),
        })
        .collect();
    assert_eq!(described, vec!["d:a:0", "d:a/c:1", "f:2:2", "f:1:1", "d:b:0", "f:0:1"]);
    assert!(build_file_tree_entries(&[], &[], true).is_empty());
}
