//! The decisions of the TypeScript language-server client: status texts,
//! symbol kinds, the flattening of document symbols and what the worker does
//! on each command. Talking to the server is left to the caller.
use vstd::prelude::*;
use vstd::string::StringExecFns;


verus! {

#[derive(Clone, Debug)]
pub enum LspStatus {
    Idle,
    Starting,
    Ready(String),
    Stopped,
    Unavailable,
    Failed(String),
}

impl PartialEq for LspStatus {
    fn eq(&self, other: &Self) -> (r: bool) {
        match (self, other) {
            (LspStatus::Idle, LspStatus::Idle) => true,
            (LspStatus::Starting, LspStatus::Starting) => true,
            (LspStatus::Ready(a), LspStatus::Ready(b)) => *a == *b,
            (LspStatus::Stopped, LspStatus::Stopped) => true,
            (LspStatus::Unavailable, LspStatus::Unavailable) => true,
            (LspStatus::Failed(a), LspStatus::Failed(b)) => *a == *b,
            _ => false,
        }
    }
}

impl vstd::std_specs::cmp::PartialEqSpecImpl for LspStatus {
    open spec fn obeys_eq_spec() -> bool {
        true
    }

    open spec fn eq_spec(&self, other: &LspStatus) -> bool {
        match (*self, *other) {
            (LspStatus::Idle, LspStatus::Idle) => true,
            (LspStatus::Starting, LspStatus::Starting) => true,
            (LspStatus::Ready(a), LspStatus::Ready(b)) => a@ == b@,
            (LspStatus::Stopped, LspStatus::Stopped) => true,
            (LspStatus::Unavailable, LspStatus::Unavailable) => true,
            (LspStatus::Failed(a), LspStatus::Failed(b)) => a@ == b@,
            _ => false,
        }
    }
}

/// The status line shown for the language server.
pub open spec fn status_label(status: LspStatus) -> Seq<char> {
    match status {
        LspStatus::Idle => "Open a TypeScript file to start"@,
        LspStatus::Starting => "Starting TypeScript language server"@,
        LspStatus::Ready(name) => name@ + " running"@,
        LspStatus::Stopped => "TypeScript language server stopped"@,
        LspStatus::Unavailable => "TypeScript language server not installed"@,
        LspStatus::Failed(error) => "Language server failed: "@ + error@,
    }
}

impl LspStatus {
    pub fn label(&self) -> (s: String)
        ensures
            s@ == status_label(*self),
    {
        let mut s = String::new();
        match self {
            LspStatus::Idle => s.append("Open a TypeScript file to start"),
            LspStatus::Starting => s.append("Starting TypeScript language server"),
            LspStatus::Ready(name) => {
                s.append(name.as_str());
                s.append(" running");
            },
            LspStatus::Stopped => s.append("TypeScript language server stopped"),
            LspStatus::Unavailable => s.append("TypeScript language server not installed"),
            LspStatus::Failed(error) => {
                s.append("Language server failed: ");
                s.append(error.as_str());
            },
        }
        assert(s@ =~= status_label(*self));
        s
    }

    pub fn is_ready(&self) -> (b: bool)
        ensures
            b == (*self is Ready),
    {
        match self {
            LspStatus::Ready(_) => true,
            _ => false,
        }
    }
}

/// A document symbol as shown in the outline: one row per named symbol,
/// with 1-based first and last lines and its nesting depth.
#[derive(Clone, Debug)]
pub struct LspSymbol {
    pub name: String,
    pub kind: String,
    pub line: usize,
    pub end_line: usize,
    pub depth: usize,
}

/// A declaration whose references are counted, at a 1-based line.
#[derive(Clone, Debug)]
pub struct ReferenceTarget {
    pub key: String,
    pub line: usize,
    pub column: usize,
}

/// What the workspace asks of the language-server worker.
pub enum LspCommand {
    Analyze { path: String, source: String, targets: Vec<ReferenceTarget> },
    Restart,
    Stop,
}

/// What the worker reports back: a new status, or the symbols of a document
/// and the reference count of each target key.
pub enum LspEvent {
    Status(LspStatus),
    Analysis { path: String, symbols: Vec<LspSymbol>, references: Vec<(String, usize)> },
}

/// The name of an LSP `SymbolKind` number.
pub open spec fn kind_name(kind: Option<u64>) -> Seq<char> {
    match kind {
        Some(5) => "class"@,
        Some(6) => "method"@,
        Some(10) => "enum"@,
        Some(11) => "interface"@,
        Some(12) => "function"@,
        Some(13) => "variable"@,
        Some(14) => "constant"@,
        Some(22) => "enum member"@,
        Some(23) => "struct"@,
        Some(26) => "type parameter"@,
        _ => "symbol"@,
    }
}

pub fn symbol_kind_label(kind: Option<u64>) -> (s: String)
    ensures
        s@ == kind_name(kind),
{
    let mut s = String::new();
    match kind {
        Some(5) => s.append("class"),
        Some(6) => s.append("method"),
        Some(10) => s.append("enum"),
        Some(11) => s.append("interface"),
        Some(12) => s.append("function"),
        Some(13) => s.append("variable"),
        Some(14) => s.append("constant"),
        Some(22) => s.append("enum member"),
        Some(23) => s.append("struct"),
        Some(26) => s.append("type parameter"),
        _ => s.append("symbol"),
    }
    assert(s@ =~= kind_name(kind));
    s
}


/// The line span of a document symbol as the server sent it (0-based);
/// a line is `None` when it was missing or not a number.
#[derive(Clone, Copy, Debug)]
pub struct SymbolRange {
    pub start_line: Option<u64>,
    pub end_line: Option<u64>,
}

/// One entry of a `textDocument/documentSymbol` response: its name when it
/// has one, its kind number, its `range` and `selectionRange` when present,
/// and the symbols nested in it.
#[derive(Debug)]
pub struct DocumentSymbol {
    pub name: Option<String>,
    pub kind: Option<u64>,
    pub range: Option<SymbolRange>,
    pub selection_range: Option<SymbolRange>,
    pub children: Vec<DocumentSymbol>,
}

/// The span a symbol folds: the whole declaration (`range`), or only its
/// name (`selectionRange`) when that is all the server gave.
pub open spec fn folding_range(item: DocumentSymbol) -> Option<SymbolRange> {
    if item.range is Some {
        item.range
    } else {
        item.selection_range
    }
}

/// The 1-based first line of a symbol: line 1 when unknown.
pub open spec fn first_line(item: DocumentSymbol) -> int {
    match folding_range(item) {
        Some(r) => match r.start_line {
            Some(l) => l + 1,
            None => 1,
        },
        None => 1,
    }
}

/// The 1-based last line of a symbol: its first line when unknown.
pub open spec fn last_line(item: DocumentSymbol) -> int {
    match folding_range(item) {
        Some(r) => match r.end_line {
            Some(l) => l + 1,
            None => first_line(item),
        },
        None => first_line(item),
    }
}

/// An outline row as values: name, kind, first line, last line, depth.
pub open spec fn symbol_view(s: LspSymbol) -> (Seq<char>, Seq<char>, int, int, int) {
    (s.name@, s.kind@, s.line as int, s.end_line as int, s.depth as int)
}

/// The outline rows of `items` at nesting `depth`, in document order: each
/// named symbol, then the rows of its children one level deeper. Symbols
/// without a name give no row, but their children do.
pub open spec fn flat_symbols(items: Seq<DocumentSymbol>, depth: int) -> Seq<
    (Seq<char>, Seq<char>, int, int, int),
>
    decreases items,
{
    if items.len() == 0 {
        Seq::empty()
    } else {
        flat_symbol(items[0], depth) + flat_symbols(items.subrange(1, items.len() as int), depth)
    }
}

/// The row of a named symbol; nothing for one without a name.
pub open spec fn own_row(item: DocumentSymbol, depth: int) -> Seq<(Seq<char>, Seq<char>, int, int, int)> {
    match item.name {
        Some(name) => seq![(name@, kind_name(item.kind), first_line(item), last_line(item), depth)],
        None => Seq::empty(),
    }
}

pub open spec fn flat_symbol(item: DocumentSymbol, depth: int) -> Seq<
    (Seq<char>, Seq<char>, int, int, int),
>
    decreases item,
{
    own_row(item, depth) + flat_symbols(item.children@, depth + 1)
}

/// Every line number and nesting depth of the rows fits in a `usize`.
pub open spec fn symbols_fit(items: Seq<DocumentSymbol>, depth: int) -> bool
    decreases items,
{
    if items.len() == 0 {
        true
    } else {
        symbol_fits(items[0], depth) && symbols_fit(items.subrange(1, items.len() as int), depth)
    }
}

pub open spec fn symbol_fits(item: DocumentSymbol, depth: int) -> bool
    decreases item,
{
    &&& 0 <= depth < usize::MAX
    &&& first_line(item) <= usize::MAX
    &&& last_line(item) <= usize::MAX
    &&& symbols_fit(item.children@, depth + 1)
}

fn range_of(item: &DocumentSymbol) -> (r: Option<SymbolRange>)
    ensures
        r == folding_range(*item),
{
    if item.range.is_some() {
        item.range
    } else {
        item.selection_range
    }
}

/// Appends the outline rows of `items` at nesting `depth`.
pub fn flatten_symbols(items: &Vec<DocumentSymbol>, depth: usize, symbols: &mut Vec<LspSymbol>)
    requires
        symbols_fit(items@, depth as int),
    ensures
        final(symbols)@.map_values(|s: LspSymbol| symbol_view(s)) == old(symbols)@.map_values(
            |s: LspSymbol| symbol_view(s),
        ) + flat_symbols(items@, depth as int),
    decreases items@,
{
    let mut i: usize = 0;
    assert(items@.subrange(0, items@.len() as int) =~= items@);
    while i < items.len()
        invariant
            i <= items@.len(),
            symbols_fit(items@.subrange(i as int, items@.len() as int), depth as int),
            symbols@.map_values(|s: LspSymbol| symbol_view(s)) + flat_symbols(
                items@.subrange(i as int, items@.len() as int),
                depth as int,
            ) == old(symbols)@.map_values(|s: LspSymbol| symbol_view(s)) + flat_symbols(
                items@,
                depth as int,
            ),
        decreases items@.len() - i,
    {
        let ghost rest = items@.subrange(i as int, items@.len() as int);
        assert(rest[0] == items@[i as int]);
        assert(rest.subrange(1, rest.len() as int) =~= items@.subrange(i + 1, items@.len() as int));
        let item = &items[i];
        assert(symbol_fits(*item, depth as int));
        let ghost before = symbols@.map_values(|s: LspSymbol| symbol_view(s));
        let range = range_of(item);
        let line: usize = match range {
            Some(r) => match r.start_line {
                Some(l) => (l as usize) + 1,
                None => 1,
            },
            None => 1,
        };
        let end_line: usize = match range {
            Some(r) => match r.end_line {
                Some(l) => (l as usize) + 1,
                None => line,
            },
            None => line,
        };
        match &item.name {
            Some(name) => {
                let kind = symbol_kind_label(item.kind);
                symbols.push(
                    LspSymbol { name: name.clone(), kind, line, end_line, depth },
                );
            },
            None => {},
        }
        let ghost own = own_row(*item, depth as int);
        assert(symbols@.map_values(|s: LspSymbol| symbol_view(s)) =~= before + own);
        let ghost mid = symbols@.map_values(|s: LspSymbol| symbol_view(s));
        proof {
            assert(decreases_to!(items@ => items@[i as int]));
        }
        flatten_symbols(&item.children, depth + 1, symbols);
        assert(flat_symbols(rest, depth as int) == flat_symbol(*item, depth as int) + flat_symbols(
            items@.subrange(i + 1, items@.len() as int),
            depth as int,
        ));
        assert(flat_symbol(*item, depth as int) == own + flat_symbols(item.children@, depth + 1));
        assert(symbols@.map_values(|s: LspSymbol| symbol_view(s)) + flat_symbols(
            items@.subrange(i + 1, items@.len() as int),
            depth as int,
        ) =~= before + flat_symbols(rest, depth as int));
        i = i + 1;
    }
}


/// What the language-server worker knows between commands: whether a
/// server is running, and whether the user stopped it (which keeps new
/// documents from starting it again until a restart).
#[derive(Clone, Copy, Debug, PartialEq, Eq, Structural)]
pub struct WorkerState {
    pub running: bool,
    pub explicitly_stopped: bool,
}

/// The work one command asks for, in this order: stop the running server,
/// report `Stopped`, start a server, then analyze the document if a server
/// is running by then.
#[derive(Clone, Copy, Debug, PartialEq, Eq, Structural)]
pub struct CommandPlan {
    pub stop_running: bool,
    pub report_stopped: bool,
    pub start_server: bool,
    pub analyze: bool,
}

/// The state and plan after `command` in state `s` (what
/// [`WorkerState::on_command`] does).
pub open spec fn command_step(s: WorkerState, command: LspCommand) -> (WorkerState, CommandPlan) {
    match command {
        LspCommand::Stop => (
            WorkerState { running: false, explicitly_stopped: true },
            CommandPlan { stop_running: s.running, report_stopped: true, start_server: false, analyze: false },
        ),
        LspCommand::Restart => (
            WorkerState { running: false, explicitly_stopped: false },
            CommandPlan { stop_running: s.running, report_stopped: false, start_server: true, analyze: false },
        ),
        LspCommand::Analyze { .. } => (
            s,
            CommandPlan {
                stop_running: false,
                report_stopped: false,
                start_server: !s.running && !s.explicitly_stopped,
                analyze: true,
            },
        ),
    }
}

/// The state after the commands `commands` from state `s`, where no server
/// is started (as long as no plan asks for a start, nothing else changes
/// the state: a start or an analysis needs a running server).
pub open spec fn state_after(s: WorkerState, commands: Seq<LspCommand>) -> WorkerState
    decreases commands.len(),
{
    if commands.len() == 0 {
        s
    } else {
        state_after(command_step(s, commands[0]).0, commands.drop_first())
    }
}

/// A stopped server stays stopped: after `Stop` (which reports `Stopped`),
/// commands without a `Restart` in between plan no start, and the worker
/// stays stopped with no server running, so it analyzes nothing; a later
/// `Restart` plans a start again.
pub proof fn stop_holds_until_restart(s: WorkerState, commands: Seq<LspCommand>)
    requires
        forall|i: int| 0 <= i < commands.len() ==> !(#[trigger] commands[i] is Restart),
    ensures
        command_step(s, LspCommand::Stop).1.report_stopped,
        forall|i: int|
            0 <= i < commands.len() ==> !(#[trigger] command_step(
                state_after(command_step(s, LspCommand::Stop).0, commands.take(i)),
                commands[i],
            )).1.start_server,
        state_after(command_step(s, LspCommand::Stop).0, commands) == (WorkerState {
            running: false,
            explicitly_stopped: true,
        }),
        command_step(state_after(command_step(s, LspCommand::Stop).0, commands), LspCommand::Restart).1.start_server,
{
    let stopped = WorkerState { running: false, explicitly_stopped: true };
    assert(command_step(s, LspCommand::Stop).0 == stopped);
    lemma_stopped_after(commands);
    assert forall|i: int| 0 <= i < commands.len() implies !(#[trigger] command_step(
        state_after(command_step(s, LspCommand::Stop).0, commands.take(i)),
        commands[i],
    )).1.start_server by {
        lemma_stopped_after(commands.take(i));
    }
}

/// From the stopped state, commands without a `Restart` leave it stopped.
proof fn lemma_stopped_after(commands: Seq<LspCommand>)
    requires
        forall|i: int| 0 <= i < commands.len() ==> !(#[trigger] commands[i] is Restart),
    ensures
        state_after(WorkerState { running: false, explicitly_stopped: true }, commands) == (WorkerState {
            running: false,
            explicitly_stopped: true,
        }),
    decreases commands.len(),
{
    if commands.len() > 0 {
        assert(!(commands[0] is Restart));
        assert forall|i: int| 0 <= i < commands.drop_first().len() implies !(#[trigger] commands.drop_first()[i] is Restart) by {
            assert(commands.drop_first()[i] == commands[i + 1]);
        }
        lemma_stopped_after(commands.drop_first());
    }
}

impl WorkerState {
    /// No server, not stopped.
    pub fn new() -> (s: Self)
        ensures
            !s.running,
            !s.explicitly_stopped,
    {
        WorkerState { running: false, explicitly_stopped: false }
    }

    /// The plan for `command`. `Stop` stops any server and keeps it stopped;
    /// `Restart` replaces any server with a new one; `Analyze` starts a server
    /// first when none runs and the user did not stop it.
    pub fn on_command(&mut self, command: &LspCommand) -> (plan: CommandPlan)
        ensures
            (*final(self), plan) == command_step(*old(self), *command),
            match *command {
                LspCommand::Stop => {
                    &&& plan == CommandPlan {
                        stop_running: old(self).running,
                        report_stopped: true,
                        start_server: false,
                        analyze: false,
                    }
                    &&& *final(self) == WorkerState { running: false, explicitly_stopped: true }
                },
                LspCommand::Restart => {
                    &&& plan == CommandPlan {
                        stop_running: old(self).running,
                        report_stopped: false,
                        start_server: true,
                        analyze: false,
                    }
                    &&& *final(self) == WorkerState { running: false, explicitly_stopped: false }
                },
                LspCommand::Analyze { .. } => {
                    &&& plan == CommandPlan {
                        stop_running: false,
                        report_stopped: false,
                        start_server: !old(self).running && !old(self).explicitly_stopped,
                        analyze: true,
                    }
                    &&& *final(self) == *old(self)
                },
            },
    {
        match command {
            LspCommand::Stop => {
                let plan = CommandPlan {
                    stop_running: self.running,
                    report_stopped: true,
                    start_server: false,
                    analyze: false,
                };
                self.running = false;
                self.explicitly_stopped = true;
                plan
            },
            LspCommand::Restart => {
                let plan = CommandPlan {
                    stop_running: self.running,
                    report_stopped: false,
                    start_server: true,
                    analyze: false,
                };
                self.running = false;
                self.explicitly_stopped = false;
                plan
            },
            LspCommand::Analyze { .. } => CommandPlan {
                stop_running: false,
                report_stopped: false,
                start_server: !self.running && !self.explicitly_stopped,
                analyze: true,
            },
        }
    }

    /// Records whether a start attempt left a server running.
    pub fn on_started(&mut self, started: bool)
        ensures
            final(self).running == started,
            final(self).explicitly_stopped == old(self).explicitly_stopped,
    {
        self.running = started;
    }

    /// Records the outcome of an analysis; a failed one stops the server.
    /// Whether the server has to be stopped now.
    pub fn on_analysis(&mut self, succeeded: bool) -> (stop: bool)
        ensures
            stop == !succeeded,
            final(self).running == (old(self).running && succeeded),
            final(self).explicitly_stopped == old(self).explicitly_stopped,
    {
        if !succeeded {
            self.running = false;
        }
        !succeeded
    }
}

/// The statuses reported by a start attempt, and whether it left a server
/// running: `Starting`, then `Unavailable` when no server was found,
/// `Ready(name)` when the found one started, or `Failed` with its error.
pub fn start_outcome(discovered: Option<String>, started: Result<(), String>) -> (r: (
    Vec<LspStatus>,
    bool,
))
    ensures
        r.0@.len() == 2,
        r.0@[0] is Starting,
        match discovered {
            None => r.0@[1] is Unavailable && !r.1,
            Some(name) => match started {
                Ok(_) => r.0@[1] matches LspStatus::Ready(n) && n@ == name@ && r.1,
                Err(e) => r.0@[1] matches LspStatus::Failed(m) && m@ == e@ && !r.1,
            },
        },
{
    let mut statuses: Vec<LspStatus> = Vec::new();
    statuses.push(LspStatus::Starting);
    match discovered {
        None => {
            statuses.push(LspStatus::Unavailable);
            (statuses, false)
        },
        Some(name) => match started {
            Ok(_) => {
                statuses.push(LspStatus::Ready(name));
                (statuses, true)
            },
            Err(e) => {
                statuses.push(LspStatus::Failed(e));
                (statuses, false)
            },
        },
    }
}


/// At most this many reference counts are asked for per analysis.
pub const MAX_REFERENCE_TARGETS: usize = 16;

/// The 0-based positions to ask `textDocument/references` about: those of
/// the first targets, at most [`MAX_REFERENCE_TARGETS`], in order.
pub fn reference_positions(targets: &[ReferenceTarget]) -> (positions: Vec<(usize, usize)>)
    ensures
        positions@.len() == if targets@.len() < MAX_REFERENCE_TARGETS {
            targets@.len()
        } else {
            MAX_REFERENCE_TARGETS as nat
        },
        forall|i: int|
            0 <= i < positions@.len() ==> #[trigger] positions@[i] == (
                if targets@[i].line > 0 { (targets@[i].line - 1) as usize } else { 0usize },
                targets@[i].column,
            ),
{
    let mut positions: Vec<(usize, usize)> = Vec::new();
    let mut i: usize = 0;
    while i < targets.len() && i < MAX_REFERENCE_TARGETS
        invariant
            i <= targets@.len(),
            i <= MAX_REFERENCE_TARGETS,
            positions@.len() == i,
            forall|k: int|
                0 <= k < i ==> #[trigger] positions@[k] == (
                    if targets@[k].line > 0 { (targets@[k].line - 1) as usize } else { 0usize },
                    targets@[k].column,
                ),
        decreases targets@.len() - i,
    {
        let target = &targets[i];
        let line = if target.line > 0 { target.line - 1 } else { 0 };
        positions.push((line, target.column));
        i = i + 1;
    }
    positions
}

} // verus!
