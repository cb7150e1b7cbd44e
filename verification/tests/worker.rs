use luminatti::lsp::{LspCommand, WorkerState};

fn analyze() -> LspCommand {
    LspCommand::Analyze { path: "a.ts".to_string(), source: "let a = 1;".to_string(), targets: vec![] }
}

#[test]
fn a_stopped_worker_starts_nothing_until_a_restart() {
    let mut state = WorkerState::new();
    let first = state.on_command(&analyze());
    assert!(first.start_server);
    state.on_started(true);
    let stop = state.on_command(&LspCommand::Stop);
    assert!(stop.stop_running && stop.report_stopped);
    for _ in 0..2 {
        let plan = state.on_command(&analyze());
        assert!(!plan.start_server);
        assert!(!state.running);
    }
    let restart = state.on_command(&LspCommand::Restart);
    assert!(restart.start_server && !restart.stop_running);
    let after = state.on_command(&analyze());
    assert!(after.start_server);
}
