use luminatti::branch_status::{branch_status, has_upstream, BranchStatus};
use luminatti::lsp::{
    flatten_symbols, reference_positions, start_outcome, symbol_kind_label, DocumentSymbol,
    LspCommand, LspStatus, ReferenceTarget, SymbolRange, WorkerState,
};
use luminatti::recent_repositories::{RecentRepositories, MAX_RECENT_REPOSITORIES};
use luminatti::theme::{light_color, themed_rgb, themed_rgba, Theme};

fn range(start: u64, end: u64) -> Option<SymbolRange> {
    Some(SymbolRange { start_line: Some(start), end_line: Some(end) })
}

#[test]
fn flattens_hierarchical_document_symbols() {
    let items = vec![DocumentSymbol {
        name: Some("Cart".into()),
        kind: Some(5),
        range: None,
        selection_range: range(3, 9),
        children: vec![DocumentSymbol {
            name: Some("total".into()),
            kind: Some(6),
            range: None,
            selection_range: range(5, 7),
            children: Vec::new(),
        }],
    }];
    let mut symbols = Vec::new();
    flatten_symbols(&items, 0, &mut symbols);
    assert_eq!(symbols.len(), 2);
    assert_eq!(symbols[0].line, 4);
    assert_eq!(symbols[1].depth, 1);
    assert_eq!(symbols[1].kind, "method");
}

#[test]
fn symbol_kinds_have_names() {
    assert_eq!(symbol_kind_label(Some(12)), "function");
    assert_eq!(symbol_kind_label(Some(26)), "type parameter");
    assert_eq!(symbol_kind_label(Some(99)), "symbol");
    assert_eq!(symbol_kind_label(None), "symbol");
}

#[test]
fn language_server_statuses_read_as_sentences() {
    assert_eq!(LspStatus::Idle.label(), "Open a TypeScript file to start");
    assert_eq!(LspStatus::Ready("vtsls".into()).label(), "vtsls running");
    assert_eq!(LspStatus::Failed("boom".into()).label(), "Language server failed: boom");
    assert!(LspStatus::Ready("x".into()).is_ready());
    assert!(!LspStatus::Starting.is_ready());
}

#[test]
fn stopping_keeps_the_server_down_until_a_restart() {
    let mut state = WorkerState::new();
    let analyze = LspCommand::Analyze { path: "a.ts".into(), source: String::new(), targets: Vec::new() };
    let plan = state.on_command(&analyze);
    assert!(plan.start_server && plan.analyze);
    state.on_started(true);
    let plan = state.on_command(&LspCommand::Stop);
    assert!(plan.stop_running && plan.report_stopped && !plan.start_server);
    let plan = state.on_command(&analyze);
    assert!(!plan.start_server && plan.analyze);
    let plan = state.on_command(&LspCommand::Restart);
    assert!(plan.start_server && !plan.stop_running);
    state.on_started(true);
    assert!(state.on_analysis(false));
    assert!(!state.running);
    let plan = state.on_command(&analyze);
    assert!(plan.start_server);
}

#[test]
fn start_attempts_report_starting_then_the_outcome() {
    let (statuses, running) = start_outcome(None, Ok(()));
    assert!(matches!(statuses.as_slice(), [LspStatus::Starting, LspStatus::Unavailable]));
    assert!(!running);
    let (statuses, running) = start_outcome(Some("vtsls".into()), Ok(()));
    assert!(matches!(statuses.as_slice(), [LspStatus::Starting, LspStatus::Ready(n)] if n == "vtsls"));
    assert!(running);
    let (statuses, running) = start_outcome(Some("vtsls".into()), Err("no".into()));
    assert!(matches!(statuses.as_slice(), [LspStatus::Starting, LspStatus::Failed(e)] if e == "no"));
    assert!(!running);
}

#[test]
fn reference_positions_are_zero_based_and_limited() {
    let targets: Vec<ReferenceTarget> = (0..20)
        .map(|i| ReferenceTarget { key: format!("k{i}"), line: i, column: 2 * i })
        .collect();
    let positions = reference_positions(&targets);
    assert_eq!(positions.len(), 16);
    assert_eq!(positions[0], (0, 0));
    assert_eq!(positions[5], (4, 10));
}

#[test]
fn branch_labels_and_tooltips() {
    let even = BranchStatus::Tracking { upstream: "origin/main".into(), ahead: 0, behind: 0 };
    let ahead = BranchStatus::Tracking { upstream: "origin/main".into(), ahead: 3, behind: 0 };
    let both = BranchStatus::Tracking { upstream: "origin/main".into(), ahead: 2, behind: 10 };
    assert_eq!(even.label(), "✓");
    assert_eq!(ahead.label(), "↑3");
    assert_eq!(both.label(), "↑2 ↓10");
    assert_eq!(BranchStatus::Tracking { upstream: "u".into(), ahead: 0, behind: 1 }.label(), "↓1");
    assert_eq!(BranchStatus::NoUpstream.label(), "—");
    assert_eq!(BranchStatus::Unavailable.label(), "?");
    assert_eq!(
        both.tooltip(),
        "2 commits ahead · 10 commits behind origin/main\nCompared with the last fetched remote state."
    );
    assert_eq!(BranchStatus::NoUpstream.tooltip(), "No remote upstream configured for this branch.");
}

#[test]
fn branch_status_follows_configuration_and_tracking() {
    let origin = Some("origin".to_string());
    let merge = Some("refs/heads/main".to_string());
    assert!(has_upstream(&origin, &merge));
    assert!(!has_upstream(&Some(".".to_string()), &merge));
    assert!(!has_upstream(&origin, &None));
    assert_eq!(branch_status(false, &origin, &merge, None), BranchStatus::Unavailable);
    assert_eq!(branch_status(true, &None, &merge, None), BranchStatus::NoUpstream);
    assert_eq!(branch_status(true, &origin, &merge, None), BranchStatus::Unavailable);
    assert_eq!(
        branch_status(true, &origin, &merge, Some(("origin/main".into(), 1, 2))),
        BranchStatus::Tracking { upstream: "origin/main".into(), ahead: 1, behind: 2 }
    );
}

#[test]
fn keeps_unique_repositories_newest_first_and_limited_to_eight() {
    let mut recents = RecentRepositories::default();
    let roots: Vec<String> = (0..9).map(|index| format!("/tmp/repository-{index}")).collect();
    for root in &roots {
        recents.insert(root.clone());
    }
    recents.insert(roots[3].clone());
    assert_eq!(recents.paths().len(), MAX_RECENT_REPOSITORIES);
    assert_eq!(recents.paths()[0], roots[3]);
    assert!(!recents.paths().contains(&roots[0]));
    let mut unique = recents.paths().to_vec();
    unique.sort();
    unique.dedup();
    assert_eq!(unique.len(), recents.paths().len());
    recents.clear_entries();
    assert!(recents.paths().is_empty());
}

fn dim(channel: u32) -> u32 {
    (channel as f32 * 0.74) as u32
}

#[test]
fn light_colors_match_the_palette_and_its_rules() {
    assert_eq!(light_color(0x282d36), 0xf8fafc);
    assert_eq!(light_color(0x101720), 0xffffff);
    assert_eq!(light_color(0xc0c0c0), 0x344153);
    assert_eq!(light_color(0x808080), 0x627083);
    for hex in [0xff0000u32, 0x12fe80, 0x00ff7f, 0xabcdef, 0x7f0000] {
        let (r, g, b) = ((hex >> 16) & 0xff, (hex >> 8) & 0xff, hex & 0xff);
        let max = r.max(g).max(b);
        let min = r.min(g).min(b);
        if max > 0x70 && max - min >= 45 {
            assert_eq!(light_color(hex), (dim(r) << 16) | (dim(g) << 8) | dim(b), "{hex:x}");
        }
    }
    for channel in 0..=255u32 {
        assert_eq!(channel * 74 / 100, dim(channel), "{channel}");
    }
    let lift = |max: i32, c: i32| (253 - (max - 28).max(0) / 3 - (max - c) / 5).clamp(0, 255) as u32;
    let hex = 0x102030u32;
    assert_eq!(light_color(hex), (lift(0x30, 0x10) << 16) | (lift(0x30, 0x20) << 8) | lift(0x30, 0x30));
}

#[test]
fn themes_choose_the_palette() {
    assert_eq!(Theme::default(), Theme::Dark);
    assert_eq!(themed_rgb(Theme::Dark, 0x282d36), 0x282d36);
    assert_eq!(themed_rgb(Theme::Light, 0x282d36), 0xf8fafc);
    assert_eq!(themed_rgba(Theme::Dark, 0x282d36cc), 0x282d36cc);
    assert_eq!(themed_rgba(Theme::Light, 0x282d36cc), 0xf8fafccc);
    assert_eq!(themed_rgba(Theme::Light, 0x14182080), 0x26324280);
    assert_eq!(Theme::from_code(Theme::Light.code()), Theme::Light);
    assert_eq!(Theme::from_code(Theme::Dark.code()), Theme::Dark);
}
