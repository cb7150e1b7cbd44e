//! Pure layout and selection helpers of the review workspace: which rows of
//! a diff start a change, which runs are unchanged and how they fold, the
//! file tree of the sidebar, and the tabs kept across a refresh.
use vstd::prelude::*;
use crate::diff::ChangeType;
use crate::model::{NativeFile, NativeRow};
use crate::lsp::LspSymbol;
use crate::semantic::FileSymbol;

verus! {

/// An entry of the sidebar's file tree.
pub enum FileTreeEntry {
    Directory { name: String, path: String, depth: usize, collapsed: bool },
    File { index: usize, depth: usize },
}

impl FileTreeEntry {
    /// How deep the entry is indented.
    pub fn depth(&self) -> (d: usize)
        ensures
            d == match *self {
                FileTreeEntry::Directory { depth, .. } => depth,
                FileTreeEntry::File { depth, .. } => depth,
            },
    {
        match self {
            FileTreeEntry::Directory { depth, .. } => *depth,
            FileTreeEntry::File { depth, .. } => *depth,
        }
    }
}

/// A contiguous range of rows, `start_row..end_row`, with the same contents
/// in both panels. Two sections are equal when they cover the same rows of
/// the same file, whatever their labels.
#[derive(Clone, Debug)]
pub struct UnchangedSection {
    pub file_path: String,
    pub start_row: usize,
    pub end_row: usize,
    pub label: Option<String>,
}

impl PartialEq for UnchangedSection {
    fn eq(&self, other: &Self) -> (r: bool) {
        self.file_path == other.file_path && self.start_row == other.start_row && self.end_row == other.end_row
    }
}

impl vstd::std_specs::cmp::PartialEqSpecImpl for UnchangedSection {
    open spec fn obeys_eq_spec() -> bool {
        true
    }

    open spec fn eq_spec(&self, other: &UnchangedSection) -> bool {
        self.file_path@ == other.file_path@ && self.start_row == other.start_row && self.end_row == other.end_row
    }
}

/// The identity of a section: its file and rows.
pub open spec fn section_key(s: UnchangedSection) -> (Seq<char>, usize, usize) {
    (s.file_path@, s.start_row, s.end_row)
}

/// A row of the displayed diff: a source row, or a folded section.
#[derive(Clone)]
pub enum DiffDisplayRow {
    Code { source_row: usize },
    CollapsedUnchanged { section: UnchangedSection },
}

pub open spec fn is_changed(row: NativeRow) -> bool {
    row.change != ChangeType::Equal
}

/// The first row of each block of consecutive changed rows.
pub open spec fn change_starts(rows: Seq<NativeRow>, n: int) -> Seq<usize>
    decreases n,
{
    if n <= 0 {
        Seq::empty()
    } else if is_changed(rows[n - 1]) && (n == 1 || !is_changed(rows[n - 2])) {
        change_starts(rows, n - 1).push((n - 1) as usize)
    } else {
        change_starts(rows, n - 1)
    }
}

/// The navigation stops are exactly the rows where a change begins: row
/// `i` is a stop when it is changed and it is the first row or the row
/// before it is unchanged. The stops come in increasing order.
pub proof fn change_stops_are_block_starts(rows: Seq<NativeRow>)
    requires
        rows.len() <= usize::MAX,
    ensures
        forall|i: int|
            #![trigger rows[i]]
            0 <= i < rows.len() ==> (change_starts(rows, rows.len() as int).contains(i as usize) <==> (
            rows[i].change != ChangeType::Equal && (i == 0 || rows[i - 1].change == ChangeType::Equal))),
        forall|a: int, b: int|
            0 <= a < b < change_starts(rows, rows.len() as int).len() ==> #[trigger] change_starts(
                rows,
                rows.len() as int,
            )[a] < #[trigger] change_starts(rows, rows.len() as int)[b],
{
    lemma_change_starts_order(rows, rows.len() as int);
    lemma_change_starts_members(rows, rows.len() as int);
    assert forall|i: int|
        #![trigger rows[i]]
        0 <= i < rows.len() implies (change_starts(rows, rows.len() as int).contains(i as usize) <==> (
        rows[i].change != ChangeType::Equal && (i == 0 || rows[i - 1].change == ChangeType::Equal))) by {
        assert(block_start(rows, i) == (rows[i].change != ChangeType::Equal && (i == 0 || rows[i - 1].change
            == ChangeType::Equal)));
    }
}

/// Row `i` begins a block of changed rows.
spec fn block_start(rows: Seq<NativeRow>, i: int) -> bool {
    rows[i].change != ChangeType::Equal && (i == 0 || rows[i - 1].change == ChangeType::Equal)
}

proof fn lemma_change_starts_order(rows: Seq<NativeRow>, n: int)
    requires
        0 <= n <= rows.len(),
        rows.len() <= usize::MAX,
    ensures
        forall|k: int| 0 <= k < change_starts(rows, n).len() ==> #[trigger] change_starts(rows, n)[k] < n,
        forall|a: int, b: int|
            0 <= a < b < change_starts(rows, n).len() ==> #[trigger] change_starts(rows, n)[a] < #[trigger] change_starts(
                rows,
                n,
            )[b],
    decreases n,
{
    if n > 0 {
        lemma_change_starts_order(rows, n - 1);
        let prev = change_starts(rows, n - 1);
        let cur = change_starts(rows, n);
        if cur != prev {
            assert(cur == prev.push((n - 1) as usize));
            assert forall|k: int| 0 <= k < cur.len() implies #[trigger] cur[k] < n by {
                if k < prev.len() {
                    assert(cur[k] == prev[k]);
                }
            }
            assert forall|a: int, b: int| 0 <= a < b < cur.len() implies #[trigger] cur[a] < #[trigger] cur[b] by {
                assert(cur[a] == prev[a]);
                assert(prev[a] < n - 1);
                if b < prev.len() {
                    assert(cur[b] == prev[b]);
                }
            }
        }
    }
}

proof fn lemma_change_starts_members(rows: Seq<NativeRow>, n: int)
    requires
        0 <= n <= rows.len(),
        rows.len() <= usize::MAX,
    ensures
        forall|i: int| 0 <= i < n ==> (change_starts(rows, n).contains(i as usize) <==> #[trigger] block_start(rows, i)),
    decreases n,
{
    if n > 0 {
        lemma_change_starts_members(rows, n - 1);
        lemma_change_starts_order(rows, n - 1);
        let prev = change_starts(rows, n - 1);
        let cur = change_starts(rows, n);
        let x = (n - 1) as usize;
        if block_start(rows, n - 1) {
            assert(cur == prev.push(x));
        } else {
            assert(cur == prev);
        }
        assert forall|i: int| 0 <= i < n implies (cur.contains(i as usize) <==> #[trigger] block_start(rows, i)) by {
            if i == n - 1 {
                if block_start(rows, i) {
                    assert(cur[cur.len() - 1] == x);
                } else if cur.contains(i as usize) {
                    let k = choose|k: int| 0 <= k < cur.len() && cur[k] == i as usize;
                    assert(prev[k] < n - 1);
                }
            } else {
                if cur.contains(i as usize) {
                    let k = choose|k: int| 0 <= k < cur.len() && cur[k] == i as usize;
                    if k == prev.len() {
                        assert(cur[k] == x);
                    } else {
                        assert(prev[k] == cur[k]);
                    }
                }
                if prev.contains(i as usize) {
                    let k = choose|k: int| 0 <= k < prev.len() && prev[k] == i as usize;
                    assert(cur[k] == prev[k]);
                }
            }
        }
    }
}

/// The first row of each contiguous changed block: a block is one
/// navigable change, however many rows it spans.
pub fn change_start_rows(rows: &[NativeRow]) -> (starts: Vec<usize>)
    ensures
        starts@ == change_starts(rows@, rows@.len() as int),
{
    let mut starts: Vec<usize> = Vec::new();
    let mut in_change = false;
    let mut i: usize = 0;
    while i < rows.len()
        invariant
            i <= rows@.len(),
            in_change == (i > 0 && is_changed(rows@[i - 1])),
            starts@ == change_starts(rows@, i as int),
        decreases rows@.len() - i,
    {
        let changed = rows[i].change != ChangeType::Equal;
        if changed && !in_change {
            starts.push(i);
        }
        in_change = changed;
        i = i + 1;
    }
    starts
}

/// The maximal runs of unchanged rows among the first `n`, as
/// `(start, end)` with `end` exclusive, and the start of the run still open
/// after row `n - 1`, if any.
pub open spec fn unchanged_runs(rows: Seq<NativeRow>, n: int) -> (Seq<(usize, usize)>, Option<usize>)
    decreases n,
{
    if n <= 0 {
        (Seq::empty(), None)
    } else {
        let (runs, open) = unchanged_runs(rows, n - 1);
        if !is_changed(rows[n - 1]) {
            match open {
                Some(s) => (runs, Some(s)),
                None => (runs, Some((n - 1) as usize)),
            }
        } else {
            match open {
                Some(s) => (runs.push((s, (n - 1) as usize)), None),
                None => (runs, None),
            }
        }
    }
}

/// All maximal unchanged runs of the rows, the last one closed at the end.
pub open spec fn all_unchanged_runs(rows: Seq<NativeRow>) -> Seq<(usize, usize)> {
    let (runs, open) = unchanged_runs(rows, rows.len() as int);
    match open {
        Some(s) => runs.push((s, rows.len() as usize)),
        None => runs,
    }
}

pub open spec fn section_rows(s: UnchangedSection) -> (usize, usize) {
    (s.start_row, s.end_row)
}

/// The unchanged runs of a file as sections without labels.
pub fn unchanged_sections(file_path: &str, rows: &[NativeRow]) -> (sections: Vec<UnchangedSection>)
    ensures
        sections@.map_values(|s: UnchangedSection| section_rows(s)) == all_unchanged_runs(rows@),
        forall|i: int| 0 <= i < sections@.len() ==> (#[trigger] sections@[i]).file_path@ == file_path@ && sections@[i].label is None,
{
    let mut sections: Vec<UnchangedSection> = Vec::new();
    let mut start: Option<usize> = None;
    let mut i: usize = 0;
    while i < rows.len()
        invariant
            i <= rows@.len(),
            sections@.map_values(|s: UnchangedSection| section_rows(s)) == unchanged_runs(rows@, i as int).0,
            start == unchanged_runs(rows@, i as int).1,
            forall|k: int| 0 <= k < sections@.len() ==> (#[trigger] sections@[k]).file_path@ == file_path@ && sections@[k].label is None,
        decreases rows@.len() - i,
    {
        let ghost before = sections@;
        if rows[i].change == ChangeType::Equal {
            if start.is_none() {
                start = Some(i);
            }
        } else {
            match start {
                Some(s) => {
                    sections.push(UnchangedSection { file_path: file_path.to_owned(), start_row: s, end_row: i, label: None });
                    assert(sections@.map_values(|s: UnchangedSection| section_rows(s)) =~= before.map_values(|s: UnchangedSection| section_rows(s)).push((s, i)));
                },
                None => {},
            }
            start = None;
        }
        i = i + 1;
    }
    let ghost before = sections@;
    match start {
        Some(s) => {
            sections.push(UnchangedSection { file_path: file_path.to_owned(), start_row: s, end_row: rows.len(), label: None });
            assert(sections@.map_values(|s: UnchangedSection| section_rows(s)) =~= before.map_values(|s: UnchangedSection| section_rows(s)).push((s, rows@.len() as usize)));
        },
        None => {},
    }
    sections
}

/// A section as values: file, rows and label.
pub type SectionView = (Seq<char>, usize, usize, Option<Seq<char>>);

pub open spec fn section_view(s: UnchangedSection) -> SectionView {
    (s.file_path@, s.start_row, s.end_row, match s.label {
        Some(l) => Some(l@),
        None => None,
    })
}

/// A display row as values: a source row `(false, row, _)` or a folded
/// section `(true, _, section)`.
pub type DisplayView = (bool, int, SectionView);

pub open spec fn no_section() -> SectionView {
    (Seq::empty(), 0, 0, None)
}

pub open spec fn display_view(r: DiffDisplayRow) -> DisplayView {
    match r {
        DiffDisplayRow::Code { source_row } => (false, source_row as int, no_section()),
        DiffDisplayRow::CollapsedUnchanged { section } => (true, 0, section_view(section)),
    }
}

/// The source rows `from..to`.
pub open spec fn code_rows(from: int, to: int) -> Seq<DisplayView>
    decreases to - from,
{
    if to <= from {
        Seq::empty()
    } else {
        code_rows(from, to - 1).push((false, to - 1, no_section()))
    }
}

proof fn lemma_code_rows_concat(a: int, b: int, c: int)
    requires
        a <= b <= c,
    ensures
        code_rows(a, b) + code_rows(b, c) == code_rows(a, c),
    decreases c - b,
{
    if b == c {
        assert(code_rows(b, c) =~= Seq::<DisplayView>::empty());
        assert(code_rows(a, b) + code_rows(b, c) =~= code_rows(a, b));
    } else {
        lemma_code_rows_concat(a, b, c - 1);
        assert(code_rows(a, b) + code_rows(b, c) =~= (code_rows(a, b) + code_rows(b, c - 1)).push((false, c - 1, no_section())));
    }
}

/// Whether sections come in row order, each within the file and ending
/// before the next starts.
pub open spec fn in_row_order(sections: Seq<UnchangedSection>, row_count: int) -> bool {
    &&& forall|i: int| 0 <= i < sections.len() ==> (#[trigger] sections[i]).start_row <= sections[i].end_row
    &&& forall|i: int| 0 <= i < sections.len() - 1 ==> (#[trigger] sections[i]).end_row <= sections[i + 1].start_row
    &&& sections.len() > 0 ==> sections.last().end_row <= row_count
}

proof fn lemma_prefix_expanded(sections: Seq<UnchangedSection>, row_count: int, n: int)
    requires
        in_row_order(sections, row_count),
        0 <= n <= sections.len(),
    ensures
        display_prefix(sections, Seq::empty(), n) == (code_rows(0, display_prefix(sections, Seq::empty(), n).1), display_prefix(sections, Seq::empty(), n).1),
        n == 0 ==> display_prefix(sections, Seq::empty(), n).1 == 0,
        n > 0 ==> display_prefix(sections, Seq::empty(), n).1 == sections[n - 1].end_row,
    decreases n,
{
    if n > 0 {
        lemma_prefix_expanded(sections, row_count, n - 1);
        let at = display_prefix(sections, Seq::empty(), n - 1).1;
        let s = sections[n - 1];
        assert(!is_collapsed(Seq::empty(), s));
        if n > 1 {
            assert(sections[n - 2].end_row <= sections[n - 1].start_row);
        }
        assert(at <= s.start_row);
        lemma_code_rows_concat(0, at, s.start_row as int);
        lemma_code_rows_concat(0, s.start_row as int, s.end_row as int);
    }
}

/// With no section collapsed, every row of the file is shown once, in
/// order, whatever sections it is cut into.
pub proof fn expanded_rows_show_every_row(row_count: int, sections: Seq<UnchangedSection>)
    requires
        0 <= row_count,
        in_row_order(sections, row_count),
    ensures
        display_rows(row_count, sections, Seq::empty()) == code_rows(0, row_count),
{
    lemma_prefix_expanded(sections, row_count, sections.len() as int);
    let at = display_prefix(sections, Seq::empty(), sections.len() as int).1;
    assert(at <= row_count);
    lemma_code_rows_concat(0, at, row_count);
}

/// Whether a section is folded: some collapsed section covers the same rows
/// of the same file.
pub open spec fn is_collapsed(collapsed: Seq<UnchangedSection>, s: UnchangedSection) -> bool {
    exists|i: int| 0 <= i < collapsed.len() && section_key(#[trigger] collapsed[i]) == section_key(s)
}

/// The display rows produced by the first `n` sections, starting at source
/// row 0, and the source row reached: the rows before each section are
/// shown, then the section is either folded into one row or shown row by
/// row.
pub open spec fn display_prefix(sections: Seq<UnchangedSection>, collapsed: Seq<UnchangedSection>, n: int) -> (Seq<DisplayView>, int)
    decreases n,
{
    if n <= 0 {
        (Seq::empty(), 0)
    } else {
        let (rows, at) = display_prefix(sections, collapsed, n - 1);
        let s = sections[n - 1];
        let lead = rows + code_rows(at, s.start_row as int);
        let from = if at > s.start_row { at } else { s.start_row as int };
        if is_collapsed(collapsed, s) {
            (lead.push((true, 0, section_view(s))), s.end_row as int)
        } else {
            (lead + code_rows(from, s.end_row as int), s.end_row as int)
        }
    }
}

/// The display rows of a whole file of `row_count` rows.
pub open spec fn display_rows(row_count: int, sections: Seq<UnchangedSection>, collapsed: Seq<UnchangedSection>) -> Seq<DisplayView> {
    let (rows, at) = display_prefix(sections, collapsed, sections.len() as int);
    rows + code_rows(at, row_count)
}

pub open spec fn display_views(rows: Seq<DiffDisplayRow>) -> Seq<DisplayView> {
    rows.map_values(|r: DiffDisplayRow| display_view(r))
}

fn section_collapsed(collapsed: &[UnchangedSection], s: &UnchangedSection) -> (b: bool)
    ensures
        b == is_collapsed(collapsed@, *s),
{
    let mut i: usize = 0;
    while i < collapsed.len()
        invariant
            i <= collapsed@.len(),
            forall|k: int| 0 <= k < i ==> section_key(#[trigger] collapsed@[k]) != section_key(*s),
        decreases collapsed@.len() - i,
    {
        if collapsed[i].file_path == s.file_path && collapsed[i].start_row == s.start_row && collapsed[i].end_row == s.end_row {
            assert(section_key(collapsed@[i as int]) == section_key(*s));
            return true;
        }
        i = i + 1;
    }
    false
}

/// A copy of a section.
pub fn copy_section(s: &UnchangedSection) -> (c: UnchangedSection)
    ensures
        section_view(c) == section_view(*s),
{
    let label = match &s.label {
        Some(l) => Some(l.clone()),
        None => None,
    };
    UnchangedSection { file_path: s.file_path.clone(), start_row: s.start_row, end_row: s.end_row, label }
}

fn push_code_rows(out: &mut Vec<DiffDisplayRow>, from: usize, to: usize)
    ensures
        display_views(final(out)@) == display_views(old(out)@) + code_rows(from as int, to as int),
{
    let mut r = from;
    assert(display_views(out@) =~= display_views(old(out)@) + code_rows(from as int, from as int));
    while r < to
        invariant
            from <= r,
            from <= to ==> r <= to,
            to < from ==> r == from,
            display_views(out@) == display_views(old(out)@) + code_rows(from as int, r as int),
        decreases to - r,
    {
        let ghost o0 = out@;
        out.push(DiffDisplayRow::Code { source_row: r });
        assert(display_views(out@) =~= display_views(o0).push((false, r as int, no_section())));
        r = r + 1;
    }
    if to < from {
        assert(code_rows(from as int, to as int) =~= Seq::<DisplayView>::empty());
    }
}

/// The rows to display for a file of `row_count` rows: its rows in order,
/// each collapsed section folded into a single row.
pub fn display_rows_from_sections(
    row_count: usize,
    sections: &[UnchangedSection],
    collapsed_sections: &[UnchangedSection],
) -> (rows: Vec<DiffDisplayRow>)
    ensures
        display_views(rows@) == display_rows(row_count as int, sections@, collapsed_sections@),
{
    let mut out: Vec<DiffDisplayRow> = Vec::new();
    let mut source_row: usize = 0;
    let mut i: usize = 0;
    assert(display_views(out@) =~= Seq::<DisplayView>::empty());
    while i < sections.len()
        invariant
            i <= sections@.len(),
            (display_views(out@), source_row as int) == display_prefix(sections@, collapsed_sections@, i as int),
        decreases sections@.len() - i,
    {
        let section = &sections[i];
        push_code_rows(&mut out, source_row, section.start_row);
        if source_row < section.start_row {
            source_row = section.start_row;
        }
        if section_collapsed(collapsed_sections, section) {
            let ghost o1 = out@;
            out.push(DiffDisplayRow::CollapsedUnchanged { section: copy_section(section) });
            assert(display_views(out@) =~= display_views(o1).push((true, 0, section_view(*section))));
        } else {
            push_code_rows(&mut out, source_row, section.end_row);
        }
        source_row = section.end_row;
        i = i + 1;
    }
    push_code_rows(&mut out, source_row, row_count);
    out
}


/// An open review tab: the file it shows, and whether it is a preview that
/// the next file choice replaces.
#[derive(Clone, Copy, Debug, PartialEq, Eq, Structural)]
pub struct ReviewTab {
    pub file_index: usize,
    pub is_preview: bool,
}

/// The tabs that show logs rather than files.
#[derive(Clone, Copy, Debug, PartialEq, Eq, Structural)]
pub enum LogTab {
    Lsp,
}

impl LogTab {
    pub fn title(self) -> (t: &'static str)
        ensures
            t@ == "LSP Logs"@,
    {
        match self {
            LogTab::Lsp => "LSP Logs",
        }
    }
}

/// The first file from index `from` on whose path is `path`.
pub open spec fn position_from(files: Seq<NativeFile>, path: Seq<char>, from: int) -> Option<int>
    decreases files.len() - from,
{
    if from < 0 || from >= files.len() {
        None
    } else if files[from].path@ == path {
        Some(from)
    } else {
        position_from(files, path, from + 1)
    }
}

/// The tabs among the first `n` that still name a file after the refresh,
/// moved to that file's new index.
pub open spec fn kept_tabs(previous: Seq<NativeFile>, tabs: Seq<ReviewTab>, refreshed: Seq<NativeFile>, n: int) -> Seq<ReviewTab>
    decreases n,
{
    if n <= 0 {
        Seq::empty()
    } else {
        let rest = kept_tabs(previous, tabs, refreshed, n - 1);
        let tab = tabs[n - 1];
        if tab.file_index < previous.len() {
            match position_from(refreshed, previous[tab.file_index as int].path@, 0) {
                Some(i) => rest.push(ReviewTab { file_index: i as usize, is_preview: tab.is_preview }),
                None => rest,
            }
        } else {
            rest
        }
    }
}

/// The file selected after the refresh: the previously selected file at
/// its new index, else the first kept tab's file, else the first file.
pub open spec fn refreshed_selection(previous: Seq<NativeFile>, tabs: Seq<ReviewTab>, selected: usize, refreshed: Seq<NativeFile>) -> usize {
    let kept = kept_tabs(previous, tabs, refreshed, tabs.len() as int);
    let found = if selected < previous.len() {
        position_from(refreshed, previous[selected as int].path@, 0)
    } else {
        None
    };
    match found {
        Some(i) => i as usize,
        None => if kept.len() > 0 {
            kept[0].file_index
        } else {
            0
        },
    }
}

proof fn lemma_position_bound(files: Seq<NativeFile>, path: Seq<char>, from: int)
    ensures
        position_from(files, path, from) matches Some(i) ==> 0 <= from <= i < files.len() && files[i].path@ == path,
    decreases files.len() - from,
{
    if !(from < 0 || from >= files.len()) && files[from].path@ != path {
        lemma_position_bound(files, path, from + 1);
    }
}

fn position_of(files: &[NativeFile], path: &String) -> (r: Option<usize>)
    ensures
        match r {
            Some(i) => position_from(files@, path@, 0) == Some(i as int),
            None => position_from(files@, path@, 0) is None,
        },
{
    let mut i: usize = 0;
    while i < files.len()
        invariant
            i <= files@.len(),
            position_from(files@, path@, 0) == position_from(files@, path@, i as int),
        decreases files@.len() - i,
    {
        if files[i].path == *path {
            return Some(i);
        }
        i = i + 1;
    }
    None
}

/// Whether the tab's file is still among the refreshed files.
pub open spec fn tab_survives(previous: Seq<NativeFile>, refreshed: Seq<NativeFile>, tab: ReviewTab) -> bool {
    tab.file_index < previous.len() && exists|j: int|
        0 <= j < refreshed.len() && #[trigger] refreshed[j].path@ == previous[tab.file_index as int].path@
}

/// After a refresh the selection stays on the same file: when the selected
/// file is still there, the new selection is a file with its path; when it
/// is gone but a tab's file survives, the selection moves to the file of
/// the first such tab, which the first returned tab shows; when neither
/// survives, the first file is selected.
pub proof fn refresh_keeps_selection_on_a_shown_file(
    previous: Seq<NativeFile>,
    tabs: Seq<ReviewTab>,
    selected: usize,
    refreshed: Seq<NativeFile>,
)
    requires
        refreshed.len() <= usize::MAX,
    ensures
        ({
            let sel = refreshed_selection(previous, tabs, selected, refreshed);
            let stays = selected < previous.len() && exists|j: int|
                0 <= j < refreshed.len() && #[trigger] refreshed[j].path@ == previous[selected as int].path@;
            let kept = kept_tabs(previous, tabs, refreshed, tabs.len() as int);
            &&& stays ==> sel < refreshed.len() && refreshed[sel as int].path@ == previous[selected as int].path@
            &&& forall|t: int|
                0 <= t < tabs.len() && !stays && tab_survives(previous, refreshed, #[trigger] tabs[t]) && (forall|u: int|
                    0 <= u < t ==> !tab_survives(previous, refreshed, #[trigger] tabs[u])) ==> {
                    &&& sel < refreshed.len()
                    &&& refreshed[sel as int].path@ == previous[tabs[t].file_index as int].path@
                    &&& kept.len() > 0 && kept[0].file_index == sel
                }
            &&& !stays && (forall|u: int| 0 <= u < tabs.len() ==> !tab_survives(previous, refreshed, #[trigger] tabs[u]))
                ==> sel == 0
        }),
{
    let sel = refreshed_selection(previous, tabs, selected, refreshed);
    let stays = selected < previous.len() && exists|j: int|
        0 <= j < refreshed.len() && #[trigger] refreshed[j].path@ == previous[selected as int].path@;
    if selected < previous.len() {
        lemma_position_found(refreshed, previous[selected as int].path@, 0);
        lemma_position_bound(refreshed, previous[selected as int].path@, 0);
    }
    assert forall|t: int|
        0 <= t < tabs.len() && !stays && tab_survives(previous, refreshed, #[trigger] tabs[t]) && (forall|u: int|
            0 <= u < t ==> !tab_survives(previous, refreshed, #[trigger] tabs[u])) implies {
        &&& sel < refreshed.len()
        &&& refreshed[sel as int].path@ == previous[tabs[t].file_index as int].path@
        &&& kept_tabs(previous, tabs, refreshed, tabs.len() as int).len() > 0 && kept_tabs(previous, tabs, refreshed, tabs.len() as int)[0].file_index == sel
    } by {
        lemma_first_kept(previous, tabs, refreshed, t, tabs.len() as int);
        lemma_position_bound(refreshed, previous[tabs[t].file_index as int].path@, 0);
    }
    if !stays && (forall|u: int| 0 <= u < tabs.len() ==> !tab_survives(previous, refreshed, #[trigger] tabs[u])) {
        lemma_none_kept(previous, tabs, refreshed, tabs.len() as int);
    }
}

/// Every tab kept after a refresh shows a refreshed file whose path is the
/// path of the file that one of the previous tabs showed, with that tab's
/// preview flag; a tab whose file survives is never dropped.
pub proof fn refresh_keeps_exactly_the_surviving_tabs(
    previous: Seq<NativeFile>,
    tabs: Seq<ReviewTab>,
    refreshed: Seq<NativeFile>,
)
    requires
        refreshed.len() <= usize::MAX,
    ensures
        forall|k: int|
            0 <= k < kept_tabs(previous, tabs, refreshed, tabs.len() as int).len() ==> exists|t: int|
                0 <= t < tabs.len() && tab_survives(previous, refreshed, tabs[t]) && #[trigger] kept_tabs(
                    previous,
                    tabs,
                    refreshed,
                    tabs.len() as int,
                )[k].file_index < refreshed.len() && refreshed[kept_tabs(previous, tabs, refreshed, tabs.len() as int)[k].file_index as int].path@
                    == previous[tabs[t].file_index as int].path@ && kept_tabs(previous, tabs, refreshed, tabs.len() as int)[k].is_preview
                    == tabs[t].is_preview,
        kept_tabs(previous, tabs, refreshed, tabs.len() as int).len() == surviving_count(previous, tabs, refreshed, tabs.len() as int),
{
    lemma_kept_sound(previous, tabs, refreshed, tabs.len() as int);
}

/// How many of the first `n` tabs show a file that survives.
pub open spec fn surviving_count(previous: Seq<NativeFile>, tabs: Seq<ReviewTab>, refreshed: Seq<NativeFile>, n: int) -> nat
    decreases n,
{
    if n <= 0 {
        0
    } else {
        surviving_count(previous, tabs, refreshed, n - 1) + if tab_survives(previous, refreshed, tabs[n - 1]) {
            1nat
        } else {
            0nat
        }
    }
}

proof fn lemma_kept_sound(previous: Seq<NativeFile>, tabs: Seq<ReviewTab>, refreshed: Seq<NativeFile>, n: int)
    requires
        0 <= n <= tabs.len(),
        refreshed.len() <= usize::MAX,
    ensures
        forall|k: int|
            0 <= k < kept_tabs(previous, tabs, refreshed, n).len() ==> exists|t: int|
                0 <= t < tabs.len() && tab_survives(previous, refreshed, tabs[t]) && #[trigger] kept_tabs(
                    previous,
                    tabs,
                    refreshed,
                    n,
                )[k].file_index < refreshed.len() && refreshed[kept_tabs(previous, tabs, refreshed, n)[k].file_index as int].path@
                    == previous[tabs[t].file_index as int].path@ && kept_tabs(previous, tabs, refreshed, n)[k].is_preview
                    == tabs[t].is_preview,
        kept_tabs(previous, tabs, refreshed, n).len() == surviving_count(previous, tabs, refreshed, n),
    decreases n,
{
    if n > 0 {
        lemma_kept_sound(previous, tabs, refreshed, n - 1);
        let rest = kept_tabs(previous, tabs, refreshed, n - 1);
        let cur = kept_tabs(previous, tabs, refreshed, n);
        let tab = tabs[n - 1];
        if tab.file_index < previous.len() {
            lemma_position_found(refreshed, previous[tab.file_index as int].path@, 0);
            lemma_position_bound(refreshed, previous[tab.file_index as int].path@, 0);
        }
        assert forall|k: int| 0 <= k < cur.len() implies exists|t: int|
            0 <= t < tabs.len() && tab_survives(previous, refreshed, tabs[t]) && #[trigger] cur[k].file_index
                < refreshed.len() && refreshed[cur[k].file_index as int].path@ == previous[tabs[t].file_index as int].path@
                && cur[k].is_preview == tabs[t].is_preview by {
            if k < rest.len() {
                assert(cur[k] == rest[k]);
                let t = choose|t: int|
                    0 <= t < tabs.len() && tab_survives(previous, refreshed, tabs[t]) && #[trigger] rest[k].file_index
                        < refreshed.len() && refreshed[rest[k].file_index as int].path@ == previous[tabs[t].file_index as int].path@
                        && rest[k].is_preview == tabs[t].is_preview;
                assert(tab_survives(previous, refreshed, tabs[t]));
            } else {
                assert(tab_survives(previous, refreshed, tabs[n - 1]));
            }
        }
    }
}

/// A path found from `from` on is found by the search.
proof fn lemma_position_found(files: Seq<NativeFile>, path: Seq<char>, from: int)
    requires
        0 <= from,
    ensures
        (exists|j: int| from <= j < files.len() && #[trigger] files[j].path@ == path) ==> position_from(files, path, from) is Some,
        position_from(files, path, from) is Some ==> exists|j: int| from <= j < files.len() && #[trigger] files[j].path@ == path,
    decreases files.len() - from,
{
    if from < files.len() {
        lemma_position_found(files, path, from + 1);
        if exists|j: int| from <= j < files.len() && #[trigger] files[j].path@ == path {
            let j = choose|j: int| from <= j < files.len() && #[trigger] files[j].path@ == path;
            if j > from && files[from].path@ != path {
                assert(from + 1 <= j);
            }
        }
    }
}

/// With no surviving tab among the first `n`, none is kept.
proof fn lemma_none_kept(previous: Seq<NativeFile>, tabs: Seq<ReviewTab>, refreshed: Seq<NativeFile>, n: int)
    requires
        n <= tabs.len(),
        forall|u: int| 0 <= u < n ==> !tab_survives(previous, refreshed, #[trigger] tabs[u]),
    ensures
        kept_tabs(previous, tabs, refreshed, n).len() == 0,
    decreases n,
{
    if n > 0 {
        lemma_none_kept(previous, tabs, refreshed, n - 1);
        let tab = tabs[n - 1];
        assert(!tab_survives(previous, refreshed, tab));
        if tab.file_index < previous.len() {
            lemma_position_found(refreshed, previous[tab.file_index as int].path@, 0);
        }
    }
}

/// The first kept tab is the first surviving tab, moved to its file's first
/// position in the refreshed files.
proof fn lemma_first_kept(previous: Seq<NativeFile>, tabs: Seq<ReviewTab>, refreshed: Seq<NativeFile>, t: int, n: int)
    requires
        0 <= t < n <= tabs.len(),
        refreshed.len() <= usize::MAX,
        tab_survives(previous, refreshed, tabs[t]),
        forall|u: int| 0 <= u < t ==> !tab_survives(previous, refreshed, #[trigger] tabs[u]),
    ensures
        kept_tabs(previous, tabs, refreshed, n).len() > 0,
        position_from(refreshed, previous[tabs[t].file_index as int].path@, 0) == Some(
            kept_tabs(previous, tabs, refreshed, n)[0].file_index as int,
        ),
    decreases n,
{
    lemma_position_found(refreshed, previous[tabs[t].file_index as int].path@, 0);
    lemma_position_bound(refreshed, previous[tabs[t].file_index as int].path@, 0);
    if n - 1 > t {
        lemma_first_kept(previous, tabs, refreshed, t, n - 1);
        let rest = kept_tabs(previous, tabs, refreshed, n - 1);
        let cur = kept_tabs(previous, tabs, refreshed, n);
        assert(cur.len() >= rest.len());
        assert(cur[0] == rest[0]);
    } else {
        lemma_none_kept(previous, tabs, refreshed, t);
        let i = position_from(refreshed, previous[tabs[t].file_index as int].path@, 0).unwrap();
        assert(kept_tabs(previous, tabs, refreshed, n) == kept_tabs(previous, tabs, refreshed, t).push(
            ReviewTab { file_index: i as usize, is_preview: tabs[t].is_preview },
        ));
    }
}

/// The tabs that still name a changed file after the workspace refreshed,
/// and the file to select. Files are matched by path, since the refreshed
/// list may be reordered or shorter. When no tab survives but there are
/// files, the selected file opens in a preview tab.
pub fn remap_tabs_after_refresh(
    previous_files: &[NativeFile],
    previous_tabs: &[ReviewTab],
    previous_selected: usize,
    refreshed_files: &[NativeFile],
) -> (r: (Vec<ReviewTab>, usize))
    ensures
        r.1 == refreshed_selection(previous_files@, previous_tabs@, previous_selected, refreshed_files@),
        ({
            let kept = kept_tabs(previous_files@, previous_tabs@, refreshed_files@, previous_tabs@.len() as int);
            r.0@ == if kept.len() == 0 && refreshed_files@.len() > 0 {
                seq![ReviewTab { file_index: r.1, is_preview: true }]
            } else {
                kept
            }
        }),
{
    let mut tabs: Vec<ReviewTab> = Vec::new();
    let mut i: usize = 0;
    while i < previous_tabs.len()
        invariant
            i <= previous_tabs@.len(),
            tabs@ == kept_tabs(previous_files@, previous_tabs@, refreshed_files@, i as int),
        decreases previous_tabs@.len() - i,
    {
        let tab = previous_tabs[i];
        if tab.file_index < previous_files.len() {
            match position_of(refreshed_files, &previous_files[tab.file_index].path) {
                Some(index) => {
                    tabs.push(ReviewTab { file_index: index, is_preview: tab.is_preview });
                },
                None => {},
            }
        }
        i = i + 1;
    }
    let found = if previous_selected < previous_files.len() {
        position_of(refreshed_files, &previous_files[previous_selected].path)
    } else {
        None
    };
    let selected = match found {
        Some(index) => index,
        None => if tabs.len() > 0 {
            tabs[0].file_index
        } else {
            0
        },
    };
    if tabs.len() == 0 && refreshed_files.len() > 0 {
        tabs.push(ReviewTab { file_index: selected, is_preview: true });
        assert(tabs@ =~= seq![ReviewTab { file_index: selected, is_preview: true }]);
    }
    (tabs, selected)
}


/// A declaration as (name, first line, last line).
pub type Outline = (Seq<char>, usize, usize);

/// The declarations that fold: the language server's when it gave any,
/// otherwise those of the file's own analysis.
pub open spec fn outline(file: NativeFile, lsp_symbols: Seq<LspSymbol>) -> Seq<Outline> {
    if lsp_symbols.len() == 0 {
        file.semantic.symbols@.map_values(|s: FileSymbol| (s.name@, s.line, s.end_line))
    } else {
        lsp_symbols.map_values(|s: LspSymbol| (s.name@, s.line, s.end_line))
    }
}

/// The last row among the first `n` whose new-side line number is `line`.
pub open spec fn row_of_line(rows: Seq<NativeRow>, line: usize, n: int) -> Option<int>
    decreases n,
{
    if n <= 0 {
        None
    } else if rows[n - 1].new_number == Some(line) {
        Some(n - 1)
    } else {
        row_of_line(rows, line, n - 1)
    }
}

/// Whether a declaration starts or ends on row `r`.
pub open spec fn is_boundary(rows: Seq<NativeRow>, symbols: Seq<Outline>, r: int) -> bool {
    exists|k: int|
        0 <= k < symbols.len() && (row_of_line(rows, #[trigger] symbols[k].1, rows.len() as int) == Some(r)
            || row_of_line(rows, symbols[k].2, rows.len() as int) == Some(r))
}

/// The pieces of the run `prev..end` cut at declaration boundaries from row
/// `r` on; pieces shorter than two rows are dropped.
pub open spec fn pieces(rows: Seq<NativeRow>, symbols: Seq<Outline>, prev: int, r: int, end: int) -> Seq<(int, int)>
    decreases end - r,
{
    if r >= end {
        if end - prev >= 2 {
            seq![(prev, end)]
        } else {
            Seq::empty()
        }
    } else if is_boundary(rows, symbols, r) {
        (if r - prev >= 2 {
            seq![(prev, r)]
        } else {
            Seq::<(int, int)>::empty()
        }) + pieces(rows, symbols, r, r + 1, end)
    } else {
        pieces(rows, symbols, prev, r + 1, end)
    }
}

/// Whether declaration `a` is preferred to `b` as a label: the shorter
/// span, then the earlier end, then the earlier start, then the first listed.
pub open spec fn label_before(symbols: Seq<Outline>, a: int, b: int) -> bool {
    let sa = if symbols[a].2 >= symbols[a].1 { symbols[a].2 - symbols[a].1 } else { 0 };
    let sb = if symbols[b].2 >= symbols[b].1 { symbols[b].2 - symbols[b].1 } else { 0 };
    ||| sa < sb
    ||| (sa == sb && symbols[a].2 < symbols[b].2)
    ||| (sa == sb && symbols[a].2 == symbols[b].2 && symbols[a].1 < symbols[b].1)
    ||| (sa == sb && symbols[a].2 == symbols[b].2 && symbols[a].1 == symbols[b].1 && a < b)
}

/// Whether declaration `k` encloses `line`.
pub open spec fn encloses(symbols: Seq<Outline>, k: int, line: int) -> bool {
    symbols[k].1 <= line <= symbols[k].2
}

/// The innermost declaration enclosing `line`, if any.
pub open spec fn label_at(symbols: Seq<Outline>, line: int) -> Option<Seq<char>> {
    if exists|k: int| 0 <= k < symbols.len() && encloses(symbols, k, line) && forall|j: int|
        0 <= j < symbols.len() && j != k && encloses(symbols, j, line) ==> label_before(symbols, k, j) {
        let k = choose|k: int| 0 <= k < symbols.len() && encloses(symbols, k, line) && forall|j: int|
            0 <= j < symbols.len() && j != k && encloses(symbols, j, line) ==> label_before(symbols, k, j);
        Some(symbols[k].0)
    } else {
        None
    }
}

/// The new-side line of row `r`, 0 when it has none.
pub open spec fn line_of_row(rows: Seq<NativeRow>, r: int) -> int {
    match rows[r].new_number {
        Some(n) => n as int,
        None => 0,
    }
}

/// Pieces with the label of their first row.
pub open spec fn label_pieces(rows: Seq<NativeRow>, symbols: Seq<Outline>, ps: Seq<(int, int)>) -> Seq<(int, int, Option<Seq<char>>)> {
    ps.map_values(|p: (int, int)| (p.0, p.1, label_at(symbols, line_of_row(rows, p.0))))
}

proof fn lemma_runs_bounds(rows: Seq<NativeRow>, n: int)
    requires
        0 <= n <= rows.len(),
        n <= usize::MAX,
    ensures
        forall|t: int| 0 <= t < unchanged_runs(rows, n).0.len() ==> (#[trigger] unchanged_runs(rows, n).0[t]).0 < unchanged_runs(rows, n).0[t].1 <= n,
        unchanged_runs(rows, n).1 matches Some(s) ==> s < n,
    decreases n,
{
    if n > 0 {
        lemma_runs_bounds(rows, n - 1);
        let (runs, open) = unchanged_runs(rows, n - 1);
        let (runs2, open2) = unchanged_runs(rows, n);
        if is_changed(rows[n - 1]) {
            match open {
                Some(s) => {
                    assert(runs2 == runs.push((s, (n - 1) as usize)));
                },
                None => {
                    assert(runs2 == runs);
                },
            }
        } else {
            assert(runs2 == runs);
        }
        assert forall|t: int| 0 <= t < runs2.len() implies (#[trigger] runs2[t]).0 < runs2[t].1 <= n by {
            if t < runs.len() {
                assert(runs2[t] == runs[t]);
            }
        }
    }
}

proof fn lemma_runs_order(rows: Seq<NativeRow>, n: int)
    requires
        0 <= n <= rows.len(),
        n <= usize::MAX,
    ensures
        forall|t: int| 0 <= t < unchanged_runs(rows, n).0.len() - 1 ==> (#[trigger] unchanged_runs(rows, n).0[t]).1 < unchanged_runs(rows, n).0[t + 1].0,
        unchanged_runs(rows, n).1 matches Some(s) ==> unchanged_runs(rows, n).0.len() > 0 ==> unchanged_runs(rows, n).0.last().1 < s,
        unchanged_runs(rows, n).1 is None ==> unchanged_runs(rows, n).0.len() > 0 ==> unchanged_runs(rows, n).0.last().1 < n,
    decreases n,
{
    if n > 0 {
        lemma_runs_order(rows, n - 1);
        lemma_runs_bounds(rows, n - 1);
        let (runs, open) = unchanged_runs(rows, n - 1);
        let (runs2, open2) = unchanged_runs(rows, n);
        if is_changed(rows[n - 1]) {
            match open {
                Some(s) => {
                    assert(runs2 == runs.push((s, (n - 1) as usize)));
                    assert forall|t: int| 0 <= t < runs2.len() - 1 implies (#[trigger] runs2[t]).1 < runs2[t + 1].0 by {
                        if t < runs.len() - 1 {
                            assert(runs2[t] == runs[t] && runs2[t + 1] == runs[t + 1]);
                        } else {
                            assert(runs2[t] == runs.last());
                        }
                    }
                },
                None => {
                    assert(runs2 == runs);
                },
            }
        } else {
            assert(runs2 == runs);
        }
    }
}

/// The unchanged runs of a file are in row order: each is nonempty, ends
/// before the next starts with a changed row between, and lies within
/// the file.
pub proof fn unchanged_runs_in_order(rows: Seq<NativeRow>)
    requires
        rows.len() <= usize::MAX,
    ensures
        forall|t: int| 0 <= t < all_unchanged_runs(rows).len() ==> (#[trigger] all_unchanged_runs(rows)[t]).0 < all_unchanged_runs(rows)[t].1 <= rows.len(),
        forall|t: int| 0 <= t < all_unchanged_runs(rows).len() - 1 ==> (#[trigger] all_unchanged_runs(rows)[t]).1 < all_unchanged_runs(rows)[t + 1].0,
{
    let n = rows.len() as int;
    lemma_runs_bounds(rows, n);
    lemma_runs_order(rows, n);
    let (runs, open) = unchanged_runs(rows, n);
    let all = all_unchanged_runs(rows);
    match open {
        Some(s) => {
            assert(all == runs.push((s, n as usize)));
            assert forall|t: int| 0 <= t < all.len() implies (#[trigger] all[t]).0 < all[t].1 <= rows.len() by {
                if t < runs.len() {
                    assert(all[t] == runs[t]);
                }
            }
            assert forall|t: int| 0 <= t < all.len() - 1 implies (#[trigger] all[t]).1 < all[t + 1].0 by {
                if t < runs.len() - 1 {
                    assert(all[t] == runs[t] && all[t + 1] == runs[t + 1]);
                } else {
                    assert(all[t] == runs.last());
                }
            }
        },
        None => {
            assert(all == runs);
        },
    }
}

/// Sections whose rows are the unchanged runs of a file are in row order,
/// so with none collapsed the file shows every row once.
pub proof fn unchanged_sections_show_every_row(rows: Seq<NativeRow>, sections: Seq<UnchangedSection>)
    requires
        rows.len() <= usize::MAX,
        sections.map_values(|s: UnchangedSection| section_rows(s)) == all_unchanged_runs(rows),
    ensures
        in_row_order(sections, rows.len() as int),
        display_rows(rows.len() as int, sections, Seq::empty()) == code_rows(0, rows.len() as int),
{
    unchanged_runs_in_order(rows);
    let all = all_unchanged_runs(rows);
    assert forall|i: int| 0 <= i < sections.len() implies (#[trigger] sections[i]).start_row <= sections[i].end_row by {
        assert(all[i] == section_rows(sections[i]));
    }
    assert forall|i: int| 0 <= i < sections.len() - 1 implies (#[trigger] sections[i]).end_row <= sections[i + 1].start_row by {
        assert(all[i] == section_rows(sections[i]));
        assert(all[i + 1] == section_rows(sections[i + 1]));
    }
    if sections.len() > 0 {
        assert(all[sections.len() - 1] == section_rows(sections.last()));
    }
    expanded_rows_show_every_row(rows.len() as int, sections);
}

/// The folding sections of the first `n` unchanged runs.
pub open spec fn logical_sections(rows: Seq<NativeRow>, symbols: Seq<Outline>, runs: Seq<(usize, usize)>, n: int) -> Seq<(int, int, Option<Seq<char>>)>
    decreases n,
{
    if n <= 0 {
        Seq::empty()
    } else {
        let run = runs[n - 1];
        logical_sections(rows, symbols, runs, n - 1) + label_pieces(rows, symbols, pieces(rows, symbols, run.0 as int, run.0 + 1, run.1 as int))
    }
}

pub open spec fn labelled_view(s: UnchangedSection) -> (int, int, Option<Seq<char>>) {
    (s.start_row as int, s.end_row as int, match s.label {
        Some(l) => Some(l@),
        None => None,
    })
}


pub open spec fn outline_views(v: Seq<(String, usize, usize)>) -> Seq<Outline> {
    v.map_values(|t: (String, usize, usize)| (t.0@, t.1, t.2))
}

fn outline_of(file: &NativeFile, lsp_symbols: &[LspSymbol]) -> (v: Vec<(String, usize, usize)>)
    ensures
        outline_views(v@) == outline(*file, lsp_symbols@),
{
    let mut v: Vec<(String, usize, usize)> = Vec::new();
    let mut i: usize = 0;
    if lsp_symbols.len() == 0 {
        let symbols = &file.semantic.symbols;
        while i < symbols.len()
            invariant
                i <= symbols@.len(),
                outline_views(v@) == symbols@.take(i as int).map_values(|s: FileSymbol| (s.name@, s.line, s.end_line)),
            decreases symbols@.len() - i,
        {
            let ghost v0 = outline_views(v@);
            v.push((symbols[i].name.clone(), symbols[i].line, symbols[i].end_line));
            assert(outline_views(v@) =~= v0.push((symbols@[i as int].name@, symbols@[i as int].line, symbols@[i as int].end_line)));
            assert(symbols@.take(i + 1) =~= symbols@.take(i as int).push(symbols@[i as int]));
            assert(outline_views(v@) =~= symbols@.take(i + 1).map_values(|s: FileSymbol| (s.name@, s.line, s.end_line)));
            i = i + 1;
        }
        assert(symbols@.take(symbols@.len() as int) =~= symbols@);
    } else {
        while i < lsp_symbols.len()
            invariant
                i <= lsp_symbols@.len(),
                outline_views(v@) == lsp_symbols@.take(i as int).map_values(|s: LspSymbol| (s.name@, s.line, s.end_line)),
            decreases lsp_symbols@.len() - i,
        {
            let ghost v0 = outline_views(v@);
            v.push((lsp_symbols[i].name.clone(), lsp_symbols[i].line, lsp_symbols[i].end_line));
            assert(outline_views(v@) =~= v0.push((lsp_symbols@[i as int].name@, lsp_symbols@[i as int].line, lsp_symbols@[i as int].end_line)));
            assert(lsp_symbols@.take(i + 1) =~= lsp_symbols@.take(i as int).push(lsp_symbols@[i as int]));
            assert(outline_views(v@) =~= lsp_symbols@.take(i + 1).map_values(|s: LspSymbol| (s.name@, s.line, s.end_line)));
            i = i + 1;
        }
        assert(lsp_symbols@.take(lsp_symbols@.len() as int) =~= lsp_symbols@);
    }
    v
}

fn row_for_line(rows: &[NativeRow], line: usize) -> (r: Option<usize>)
    ensures
        match r {
            Some(i) => row_of_line(rows@, line, rows@.len() as int) == Some(i as int) && i < rows@.len(),
            None => row_of_line(rows@, line, rows@.len() as int) is None,
        },
{
    let mut n = rows.len();
    while n > 0
        invariant
            n <= rows@.len(),
            row_of_line(rows@, line, rows@.len() as int) == row_of_line(rows@, line, n as int),
        decreases n,
    {
        if rows[n - 1].new_number == Some(line) {
            return Some(n - 1);
        }
        n = n - 1;
    }
    None
}

/// Whether the optional row is `r`.
pub open spec fn hits(o: Option<usize>, r: int) -> bool {
    o matches Some(x) && x == r
}

fn boundary_mask(rows: &[NativeRow], symbols: &Vec<(String, usize, usize)>) -> (mask: Vec<bool>)
    ensures
        mask@.len() == rows@.len(),
        forall|r: int| 0 <= r < rows@.len() ==> (#[trigger] mask@[r] <==> is_boundary(rows@, outline_views(symbols@), r)),
{
    let ghost sv = outline_views(symbols@);
    let mut mask: Vec<bool> = Vec::new();
    let mut i: usize = 0;
    while i < rows.len()
        invariant
            i <= rows@.len(),
            mask@.len() == i,
            forall|r: int| 0 <= r < i ==> !(#[trigger] mask@[r]),
        decreases rows@.len() - i,
    {
        mask.push(false);
        i = i + 1;
    }
    let mut k: usize = 0;
    while k < symbols.len()
        invariant
            k <= symbols@.len(),
            sv == outline_views(symbols@),
            mask@.len() == rows@.len(),
            forall|r: int| 0 <= r < rows@.len() ==> (#[trigger] mask@[r] <==> exists|t: int|
                0 <= t < k && (row_of_line(rows@, #[trigger] sv[t].1, rows@.len() as int) == Some(r)
                    || row_of_line(rows@, sv[t].2, rows@.len() as int) == Some(r))),
        decreases symbols@.len() - k,
    {
        assert(sv[k as int] == (symbols@[k as int].0@, symbols@[k as int].1, symbols@[k as int].2));
        let ghost m0 = mask@;
        let a = row_for_line(rows, symbols[k].1);
        let b = row_for_line(rows, symbols[k].2);
        match a {
            Some(r) => {
                mask.set(r, true);
            },
            None => {},
        }
        match b {
            Some(r) => {
                mask.set(r, true);
            },
            None => {},
        }
        assert forall|r: int| 0 <= r < rows@.len() implies #[trigger] mask@[r] == (m0[r] || hits(a, r) || hits(b, r)) by {
        }
        assert forall|r: int| 0 <= r < rows@.len() implies (#[trigger] mask@[r] <==> exists|t: int|
            0 <= t < k + 1 && (row_of_line(rows@, #[trigger] sv[t].1, rows@.len() as int) == Some(r)
                || row_of_line(rows@, sv[t].2, rows@.len() as int) == Some(r))) by {
            assert(m0[r] <==> exists|t: int|
                0 <= t < k && (row_of_line(rows@, #[trigger] sv[t].1, rows@.len() as int) == Some(r)
                    || row_of_line(rows@, sv[t].2, rows@.len() as int) == Some(r)));
            if exists|t: int|
                0 <= t < k + 1 && (row_of_line(rows@, #[trigger] sv[t].1, rows@.len() as int) == Some(r)
                    || row_of_line(rows@, sv[t].2, rows@.len() as int) == Some(r)) {
                let t = choose|t: int|
                    0 <= t < k + 1 && (row_of_line(rows@, #[trigger] sv[t].1, rows@.len() as int) == Some(r)
                        || row_of_line(rows@, sv[t].2, rows@.len() as int) == Some(r));
                if t < k {
                    assert(m0[r]);
                }
            }
            if hits(a, r) || hits(b, r) {
                assert(row_of_line(rows@, sv[k as int].1, rows@.len() as int) == Some(r) || row_of_line(rows@, sv[k as int].2, rows@.len() as int) == Some(r));
            }
        }
        k = k + 1;
    }
    mask
}

fn span_of(sym: &(String, usize, usize)) -> (s: usize)
    ensures
        s == if sym.2 >= sym.1 { sym.2 - sym.1 } else { 0 },
{
    if sym.2 >= sym.1 {
        sym.2 - sym.1
    } else {
        0
    }
}

/// The label of the innermost declaration enclosing `line`.
fn label_for(symbols: &Vec<(String, usize, usize)>, line: usize) -> (r: Option<String>)
    ensures
        match r {
            Some(s) => label_at(outline_views(symbols@), line as int) == Some(s@),
            None => label_at(outline_views(symbols@), line as int) is None,
        },
{
    let ghost sv = outline_views(symbols@);
    let mut best: Option<usize> = None;
    let mut k: usize = 0;
    while k < symbols.len()
        invariant
            k <= symbols@.len(),
            sv == outline_views(symbols@),
            sv.len() == symbols@.len(),
            match best {
                Some(b) => b < k && encloses(sv, b as int, line as int) && forall|j: int|
                    0 <= j < k && j != b && encloses(sv, j, line as int) ==> label_before(sv, b as int, j),
                None => forall|j: int| 0 <= j < k ==> !encloses(sv, j, line as int),
            },
        decreases symbols@.len() - k,
    {
        assert(sv[k as int] == (symbols@[k as int].0@, symbols@[k as int].1, symbols@[k as int].2));
        let sym = &symbols[k];
        if sym.1 <= line && line <= sym.2 {
            match best {
                None => {
                    best = Some(k);
                },
                Some(b) => {
                    assert(sv[b as int] == (symbols@[b as int].0@, symbols@[b as int].1, symbols@[b as int].2));
                    let other = &symbols[b];
                    let sk = span_of(sym);
                    let sb = span_of(other);
                    let better = sk < sb || (sk == sb && sym.2 < other.2) || (sk == sb && sym.2 == other.2 && sym.1 < other.1);
                    if better {
                        best = Some(k);
                    } else {
                        assert(label_before(sv, b as int, k as int));
                    }
                },
            }
        }
        k = k + 1;
    }
    match best {
        Some(b) => {
            proof {
                let k2 = choose|k: int| 0 <= k < sv.len() && encloses(sv, k, line as int) && forall|j: int|
                    0 <= j < sv.len() && j != k && encloses(sv, j, line as int) ==> label_before(sv, k, j);
                if k2 != b {
                    assert(label_before(sv, b as int, k2));
                    assert(label_before(sv, k2, b as int));
                }
            }
            assert(sv[b as int].0 == symbols@[b as int].0@);
            Some(symbols[b].0.clone())
        },
        None => None,
    }
}

/// Whether `sections` are the folding sections of `file`, as
/// `logical_unchanged_sections` gives them.
pub open spec fn logical_sections_of(file: NativeFile, lsp_symbols: Seq<LspSymbol>, sections: Seq<UnchangedSection>) -> bool {
    &&& forall|i: int| 0 <= i < sections.len() ==> (#[trigger] sections[i]).file_path@ == file.path@
    &&& outline(file, lsp_symbols).len() == 0 ==> sections.map_values(|s: UnchangedSection| section_rows(s))
        == all_unchanged_runs(file.rows@) && forall|i: int| 0 <= i < sections.len() ==> (#[trigger] sections[i]).label is None
    &&& outline(file, lsp_symbols).len() > 0 ==> sections.map_values(|s: UnchangedSection| labelled_view(s))
        == logical_sections(file.rows@, outline(file, lsp_symbols), all_unchanged_runs(file.rows@), all_unchanged_runs(file.rows@).len() as int)
}

/// The unchanged runs of a file cut at declaration boundaries, each piece
/// labelled with the innermost declaration around its first line, so that
/// folding follows the code's structure. The language server's symbols are
/// used when it gave any; otherwise the file's own analysis. Without any
/// declaration the runs are returned whole and unlabelled. Pieces shorter
/// than two rows are not folded.
pub fn logical_unchanged_sections(file: &NativeFile, lsp_symbols: &[LspSymbol]) -> (sections: Vec<UnchangedSection>)
    ensures
        logical_sections_of(*file, lsp_symbols@, sections@),
        forall|i: int| 0 <= i < sections@.len() ==> (#[trigger] sections@[i]).file_path@ == file.path@,
        outline(*file, lsp_symbols@).len() == 0 ==> sections@.map_values(|s: UnchangedSection| section_rows(s))
            == all_unchanged_runs(file.rows@) && forall|i: int| 0 <= i < sections@.len() ==> (#[trigger] sections@[i]).label is None,
        outline(*file, lsp_symbols@).len() > 0 ==> sections@.map_values(|s: UnchangedSection| labelled_view(s))
            == logical_sections(
            file.rows@,
            outline(*file, lsp_symbols@),
            all_unchanged_runs(file.rows@),
            all_unchanged_runs(file.rows@).len() as int,
        ),
{
    let symbols = outline_of(file, lsp_symbols);
    let runs = unchanged_sections(file.path.as_str(), file.rows.as_slice());
    if symbols.len() == 0 {
        return runs;
    }
    let ghost sv = outline_views(symbols@);
    let ghost rv = runs@.map_values(|s: UnchangedSection| section_rows(s));
    let rows = file.rows.as_slice();
    let mask = boundary_mask(rows, &symbols);
    let row_count = rows.len();
    proof {
        assert(rows@.len() == row_count);
        lemma_runs_bounds(rows@, rows@.len() as int);
        let (rs, open) = unchanged_runs(rows@, rows@.len() as int);
        let all = all_unchanged_runs(rows@);
        assert(rv == all);
        assert forall|t: int| 0 <= t < runs@.len() implies (#[trigger] runs@[t]).start_row < runs@[t].end_row && runs@[t].end_row <= rows@.len() by {
            assert(rv[t] == section_rows(runs@[t]));
            match open {
                Some(s) => {
                    assert(all == rs.push((s, rows@.len() as usize)));
                    if t < rs.len() {
                        assert(all[t] == rs[t]);
                    } else {
                        assert(all[t] == (s, rows@.len() as usize));
                    }
                },
                None => {
                    assert(all == rs);
                    assert(all[t] == rs[t]);
                },
            }
        }
    }
    let mut result: Vec<UnchangedSection> = Vec::new();
    let mut i: usize = 0;
    assert(result@.map_values(|s: UnchangedSection| labelled_view(s)) =~= logical_sections(rows@, sv, rv, 0));
    while i < runs.len()
        invariant
            i <= runs@.len(),
            sv == outline_views(symbols@),
            rv == runs@.map_values(|s: UnchangedSection| section_rows(s)),
            rows@ == file.rows@,
            mask@.len() == rows@.len(),
            forall|r: int| 0 <= r < rows@.len() ==> (#[trigger] mask@[r] <==> is_boundary(rows@, sv, r)),
            forall|t: int| 0 <= t < runs@.len() ==> (#[trigger] runs@[t]).start_row < runs@[t].end_row && runs@[t].end_row <= rows@.len(),
            forall|t: int| 0 <= t < result@.len() ==> (#[trigger] result@[t]).file_path@ == file.path@,
            result@.map_values(|s: UnchangedSection| labelled_view(s)) == logical_sections(rows@, sv, rv, i as int),
        decreases runs@.len() - i,
    {
        let start = runs[i].start_row;
        let end = runs[i].end_row;
        let ghost before = result@.map_values(|s: UnchangedSection| labelled_view(s));
        let ghost all_pieces = pieces(rows@, sv, start as int, start + 1, end as int);
        assert(rv[i as int] == (start, end));
        let mut prev = start;
        let mut r = start + 1;
        assert(label_pieces(rows@, sv, all_pieces) =~= Seq::<(int, int, Option<Seq<char>>)>::empty() + label_pieces(rows@, sv, pieces(rows@, sv, prev as int, r as int, end as int)));
        while r < end
            invariant
                start < end <= rows@.len(),
                start <= prev < r <= end,
                sv == outline_views(symbols@),
                rows@ == file.rows@,
                mask@.len() == rows@.len(),
                forall|x: int| 0 <= x < rows@.len() ==> (#[trigger] mask@[x] <==> is_boundary(rows@, sv, x)),
                forall|t: int| 0 <= t < result@.len() ==> (#[trigger] result@[t]).file_path@ == file.path@,
                before + label_pieces(rows@, sv, all_pieces) == result@.map_values(|s: UnchangedSection| labelled_view(s))
                    + label_pieces(rows@, sv, pieces(rows@, sv, prev as int, r as int, end as int)),
            decreases end - r,
        {
            if mask[r] {
                let ghost rest = pieces(rows@, sv, r as int, r + 1, end as int);
                if r - prev >= 2 {
                    let line = match rows[prev].new_number {
                        Some(n) => n,
                        None => 0,
                    };
                    let label = label_for(&symbols, line);
                    let ghost r0 = result@.map_values(|s: UnchangedSection| labelled_view(s));
                    result.push(UnchangedSection { file_path: file.path.clone(), start_row: prev, end_row: r, label });
                    assert(result@.map_values(|s: UnchangedSection| labelled_view(s)) =~= r0.push((prev as int, r as int, label_at(sv, line_of_row(rows@, prev as int)))));
                    assert(label_pieces(rows@, sv, seq![(prev as int, r as int)] + rest) =~= seq![(prev as int, r as int, label_at(sv, line_of_row(rows@, prev as int)))] + label_pieces(rows@, sv, rest));
                } else {
                    assert(Seq::<(int, int)>::empty() + rest =~= rest);
                }
                prev = r;
            }
            r = r + 1;
        }
        if end - prev >= 2 {
            let line = match rows[prev].new_number {
                Some(n) => n,
                None => 0,
            };
            let label = label_for(&symbols, line);
            let ghost r0 = result@.map_values(|s: UnchangedSection| labelled_view(s));
            result.push(UnchangedSection { file_path: file.path.clone(), start_row: prev, end_row: end, label });
            assert(result@.map_values(|s: UnchangedSection| labelled_view(s)) =~= r0.push((prev as int, end as int, label_at(sv, line_of_row(rows@, prev as int)))));
            assert(label_pieces(rows@, sv, seq![(prev as int, end as int)]) =~= seq![(prev as int, end as int, label_at(sv, line_of_row(rows@, prev as int)))]);
        } else {
            assert(label_pieces(rows@, sv, Seq::<(int, int)>::empty()) =~= Seq::<(int, int, Option<Seq<char>>)>::empty());
        }
        assert(result@.map_values(|s: UnchangedSection| labelled_view(s)) =~= before + label_pieces(rows@, sv, all_pieces));
        i = i + 1;
    }
    result
}


/// The rows to display for a file: its unchanged runs cut at declaration
/// boundaries, each collapsed one folded into a single row.
pub fn display_rows_for_file(
    file: &NativeFile,
    collapsed_sections: &[UnchangedSection],
    lsp_symbols: &[LspSymbol],
) -> (rows: Vec<DiffDisplayRow>)
    ensures
        exists|sections: Seq<UnchangedSection>|
            logical_sections_of(*file, lsp_symbols@, sections)
                && display_views(rows@) == display_rows(file.rows@.len() as int, sections, collapsed_sections@),
{
    let sections = logical_unchanged_sections(file, lsp_symbols);
    let rows = display_rows_from_sections(file.rows.len(), sections.as_slice(), collapsed_sections);
    assert(logical_sections_of(*file, lsp_symbols@, sections@));
    rows
}

} // verus!
