//! The review model: one entry per changed file, with its side-by-side rows
//! and semantic analysis, and the annotations and summaries of a review.
use vstd::prelude::*;
use crate::diff::{ChangeType, FileDiff, FileStatus};
use crate::semantic::{analyze_typescript, digest_bytes, hex, is_analysis_of, sha256_of, FileSemanticAnalysis};
use crate::text::{chars_of, decimal, decimal_string};
use vstd::utf8::encode_utf8;

verus! {

/// One row of a side-by-side diff: each side's line number and text.
#[derive(Clone, Debug)]
pub struct NativeRow {
    pub old_number: Option<usize>,
    pub old_text: String,
    pub new_number: Option<usize>,
    pub new_text: String,
    pub change: ChangeType,
}

/// A changed file of the review.
pub struct NativeFile {
    pub path: String,
    pub status: FileStatus,
    pub additions: usize,
    pub deletions: usize,
    pub review_fingerprint: String,
    pub rows: Vec<NativeRow>,
    pub max_old_chars: usize,
    pub max_new_chars: usize,
    pub line_number_digits: usize,
    pub new_content: String,
    pub semantic: FileSemanticAnalysis,
    pub observed_at_millis: u128,
}

/// A note left on a line of a file.
#[derive(Clone, Debug, PartialEq, Eq)]
pub struct Annotation {
    pub file: String,
    pub line: usize,
    pub body: String,
}

/// Counts over a selection of files: how many have TypeScript structure,
/// how many semantic changes they hold, and their parse errors.
#[derive(Clone, Copy, Debug, PartialEq, Eq, Structural)]
pub struct ReviewSummary {
    pub typescript_files: usize,
    pub changed_symbols: usize,
    pub parse_errors: usize,
}

impl Default for ReviewSummary {
    fn default() -> (s: Self)
        ensures
            s == (ReviewSummary { typescript_files: 0, changed_symbols: 0, parse_errors: 0 }),
    {
        ReviewSummary { typescript_files: 0, changed_symbols: 0, parse_errors: 0 }
    }
}

/// Whether a row adds a line on the new side.
pub open spec fn adds(c: ChangeType) -> bool {
    c == ChangeType::Insert || c == ChangeType::Modified
}

/// Whether a row removes a line from the old side.
pub open spec fn removes(c: ChangeType) -> bool {
    c == ChangeType::Delete || c == ChangeType::Modified
}

/// The rows that add a line.
pub open spec fn added_rows(rows: Seq<NativeRow>) -> int
    decreases rows.len(),
{
    if rows.len() == 0 {
        0
    } else {
        added_rows(rows.drop_last()) + if adds(rows.last().change) { 1int } else { 0int }
    }
}

/// The rows that remove a line.
pub open spec fn removed_rows(rows: Seq<NativeRow>) -> int
    decreases rows.len(),
{
    if rows.len() == 0 {
        0
    } else {
        removed_rows(rows.drop_last()) + if removes(rows.last().change) { 1int } else { 0int }
    }
}

pub open spec fn larger(a: int, b: int) -> int {
    if a >= b { a } else { b }
}

/// The longest old-side text, in characters.
pub open spec fn widest_old(rows: Seq<NativeRow>) -> int
    decreases rows.len(),
{
    if rows.len() == 0 {
        0
    } else {
        larger(widest_old(rows.drop_last()), rows.last().old_text@.len() as int)
    }
}

/// The longest new-side text, in characters.
pub open spec fn widest_new(rows: Seq<NativeRow>) -> int
    decreases rows.len(),
{
    if rows.len() == 0 {
        0
    } else {
        larger(widest_new(rows.drop_last()), rows.last().new_text@.len() as int)
    }
}

pub open spec fn number_or_zero(n: Option<usize>) -> int {
    match n {
        Some(v) => v as int,
        None => 0,
    }
}

/// The largest line number on either side.
pub open spec fn largest_number(rows: Seq<NativeRow>) -> int
    decreases rows.len(),
{
    if rows.len() == 0 {
        0
    } else {
        larger(
            larger(largest_number(rows.drop_last()), number_or_zero(rows.last().old_number)),
            number_or_zero(rows.last().new_number),
        )
    }
}

/// The line-number column's width: the digits of the largest line number,
/// at least two.
pub open spec fn number_width(rows: Seq<NativeRow>) -> int {
    larger(decimal(largest_number(rows) as nat).len() as int, 2)
}

/// What the review fingerprint hashes: the status symbol, a zero byte, the
/// old content, a zero byte and the new content.
pub open spec fn fingerprint_input(symbol: Seq<u8>, old_content: Seq<u8>, new_content: Seq<u8>) -> Seq<u8> {
    symbol + seq![0u8] + old_content + seq![0u8] + new_content
}

/// The counts and widths of a file's rows: added rows, removed rows, the
/// widest text of each side and the line-number width.
fn row_totals(rows: &Vec<NativeRow>) -> (r: (usize, usize, usize, usize, usize))
    ensures
        r.0 == added_rows(rows@),
        r.1 == removed_rows(rows@),
        r.2 == widest_old(rows@),
        r.3 == widest_new(rows@),
        r.4 == number_width(rows@),
{
    let mut added: usize = 0;
    let mut removed: usize = 0;
    let mut old_width: usize = 0;
    let mut new_width: usize = 0;
    let mut number: usize = 0;
    let mut i: usize = 0;
    while i < rows.len()
        invariant
            i <= rows@.len(),
            added == added_rows(rows@.take(i as int)),
            removed == removed_rows(rows@.take(i as int)),
            old_width == widest_old(rows@.take(i as int)),
            new_width == widest_new(rows@.take(i as int)),
            number == largest_number(rows@.take(i as int)),
            added <= i,
            removed <= i,
        decreases rows@.len() - i,
    {
        let row = &rows[i];
        assert(rows@.take(i + 1).drop_last() =~= rows@.take(i as int));
        assert(rows@.take(i + 1).last() == rows@[i as int]);
        if row.change == ChangeType::Insert || row.change == ChangeType::Modified {
            added = added + 1;
        }
        if row.change == ChangeType::Delete || row.change == ChangeType::Modified {
            removed = removed + 1;
        }
        let old_len = chars_of(row.old_text.as_str()).len();
        if old_len > old_width {
            old_width = old_len;
        }
        let new_len = chars_of(row.new_text.as_str()).len();
        if new_len > new_width {
            new_width = new_len;
        }
        match row.old_number {
            Some(n) => {
                if n > number {
                    number = n;
                }
            },
            None => {},
        }
        match row.new_number {
            Some(n) => {
                if n > number {
                    number = n;
                }
            },
            None => {},
        }
        i = i + 1;
    }
    assert(rows@.take(rows@.len() as int) =~= rows@);
    let digits = chars_of(decimal_string(number).as_str()).len();
    let width = if digits > 2 { digits } else { 2 };
    (added, removed, old_width, new_width, width)
}

/// The hexadecimal SHA-256 digest that identifies a reviewed version of a
/// file: over its status symbol and both contents, zero bytes between.
pub fn review_fingerprint(status_symbol: &str, old_content: &str, new_content: &str) -> (f: String)
    ensures
        f@ == hex(sha256_of(fingerprint_input(encode_utf8(status_symbol@), encode_utf8(old_content@), encode_utf8(new_content@)))),
{
    let mut data: Vec<u8> = Vec::new();
    append_bytes(&mut data, status_symbol.as_bytes());
    data.push(0u8);
    append_bytes(&mut data, old_content.as_bytes());
    data.push(0u8);
    append_bytes(&mut data, new_content.as_bytes());
    assert(data@ =~= fingerprint_input(encode_utf8(status_symbol@), encode_utf8(old_content@), encode_utf8(new_content@)));
    digest_bytes(data.as_slice())
}

pub(crate) fn append_bytes(data: &mut Vec<u8>, bytes: &[u8])
    ensures
        final(data)@ == old(data)@ + bytes@,
{
    let mut i: usize = 0;
    while i < bytes.len()
        invariant
            i <= bytes@.len(),
            data@ == old(data)@ + bytes@.take(i as int),
        decreases bytes@.len() - i,
    {
        data.push(bytes[i]);
        assert(bytes@.take(i + 1) =~= bytes@.take(i as int).push(bytes@[i as int]));
        i = i + 1;
    }
    assert(bytes@.take(bytes@.len() as int) =~= bytes@);
}

impl NativeFile {
    /// A sidebar-only record: the path and status, with no rows and an
    /// empty analysis. Full source text is loaded only for the active file.
    pub fn summary(path: String, status: FileStatus) -> (f: NativeFile)
        ensures
            f.path@ == path@,
            f.status == status,
            f.additions == 0,
            f.deletions == 0,
            f.review_fingerprint@.len() == 0,
            f.rows@.len() == 0,
            f.max_old_chars == 0,
            f.max_new_chars == 0,
            f.line_number_digits == 2,
            f.new_content@.len() == 0,
            f.semantic.symbols@.len() == 0,
            f.semantic.changes@.len() == 0,
            f.semantic.parse_errors == 0,
            f.observed_at_millis == 0,
    {
        NativeFile {
            path,
            status,
            additions: 0,
            deletions: 0,
            review_fingerprint: String::new(),
            rows: Vec::new(),
            max_old_chars: 0,
            max_new_chars: 0,
            line_number_digits: 2,
            new_content: String::new(),
            semantic: FileSemanticAnalysis::default(),
            observed_at_millis: 0,
        }
    }

    /// The record of `diff` whose side-by-side rows are `rows`: a binary
    /// file keeps no rows and counts no change; otherwise the rows' counts
    /// and widths, the review fingerprint over `status_symbol` and both
    /// contents, and the semantic analysis of the diff.
    pub fn from_diff_rows(diff: &FileDiff, status_symbol: &str, rows: Vec<NativeRow>) -> (f: NativeFile)
        ensures
            f.path@ == diff.filename@,
            f.status == diff.status,
            f.rows@ == (if diff.is_binary { Seq::<NativeRow>::empty() } else { rows@ }),
            f.additions == added_rows(f.rows@),
            f.deletions == removed_rows(f.rows@),
            f.max_old_chars == widest_old(f.rows@),
            f.max_new_chars == widest_new(f.rows@),
            f.line_number_digits == number_width(f.rows@),
            f.review_fingerprint@ == hex(sha256_of(fingerprint_input(
                encode_utf8(status_symbol@),
                encode_utf8(diff.old_content@),
                encode_utf8(diff.new_content@),
            ))),
            f.new_content@ == diff.new_content@,
            is_analysis_of(*diff, f.semantic),
            f.observed_at_millis == 0,
    {
        let rows = if diff.is_binary {
            Vec::new()
        } else {
            rows
        };
        let totals = row_totals(&rows);
        let review_fingerprint = review_fingerprint(status_symbol, diff.old_content.as_str(), diff.new_content.as_str());
        let semantic = analyze_typescript(diff);
        NativeFile {
            path: diff.filename.clone(),
            status: diff.status,
            additions: totals.0,
            deletions: totals.1,
            review_fingerprint,
            rows,
            max_old_chars: totals.2,
            max_new_chars: totals.3,
            line_number_digits: totals.4,
            new_content: diff.new_content.clone(),
            semantic,
            observed_at_millis: 0,
        }
    }

    /// The same record observed at `observed_at_millis`.
    pub fn with_observed_at(self, observed_at_millis: u128) -> (f: NativeFile)
        ensures
            f == (NativeFile { observed_at_millis, ..self }),
    {
        let mut f = self;
        f.observed_at_millis = observed_at_millis;
        f
    }
}

/// The files under review, the selected one and the annotations.
pub struct ReviewModel {
    pub files: Vec<NativeFile>,
    pub selected: usize,
    pub annotations: Vec<Annotation>,
}

/// The position of the first file with path `path`.
pub open spec fn first_with_path(files: Seq<NativeFile>, path: Seq<char>, n: int) -> Option<int>
    decreases n,
{
    if n <= 0 {
        None
    } else {
        match first_with_path(files, path, n - 1) {
            Some(i) => Some(i),
            None => if files[n - 1].path@ == path {
                Some(n - 1)
            } else {
                None
            },
        }
    }
}

/// The first line number of a file's rows, new side before old, 1 when no
/// row has one.
pub open spec fn first_line(rows: Seq<NativeRow>) -> int
    decreases rows.len(),
{
    if rows.len() == 0 {
        1
    } else {
        match rows[0].new_number {
            Some(n) => n as int,
            None => match rows[0].old_number {
                Some(n) => n as int,
                None => first_line(rows.drop_first()),
            },
        }
    }
}

/// The body of an annotation added from the toolbar.
pub const ANNOTATION_PROMPT: &'static str = "Review this change with the AI harness.";

/// Whether `i` indexes a file and that file has TypeScript structure.
pub open spec fn has_structure(f: NativeFile) -> bool {
    f.semantic.symbols@.len() > 0 || f.semantic.changes@.len() > 0
}

/// The summary of the files at `indices[..n]`, indices past the end skipped.
pub open spec fn summary_of(files: Seq<NativeFile>, indices: Seq<usize>, n: int) -> (int, int, int)
    decreases n,
{
    if n <= 0 {
        (0, 0, 0)
    } else {
        let (t, c, e) = summary_of(files, indices, n - 1);
        let k = indices[n - 1] as int;
        if k < files.len() {
            (
                t + if has_structure(files[k]) { 1int } else { 0int },
                c + files[k].semantic.changes@.len(),
                e + files[k].semantic.parse_errors,
            )
        } else {
            (t, c, e)
        }
    }
}

proof fn lemma_summary_grows(files: Seq<NativeFile>, indices: Seq<usize>, m: int, n: int)
    requires
        0 <= m <= n <= indices.len(),
    ensures
        summary_of(files, indices, m).0 <= summary_of(files, indices, n).0,
        summary_of(files, indices, m).1 <= summary_of(files, indices, n).1,
        summary_of(files, indices, m).2 <= summary_of(files, indices, n).2,
    decreases n - m,
{
    if m < n {
        lemma_summary_grows(files, indices, m, n - 1);
    }
}

proof fn lemma_summary_prefix(files: Seq<NativeFile>, s: Seq<usize>, t: Seq<usize>, n: int)
    requires
        0 <= n <= s.len(),
        n <= t.len(),
        forall|i: int| 0 <= i < n ==> s[i] == t[i],
    ensures
        summary_of(files, s, n) == summary_of(files, t, n),
    decreases n,
{
    if n > 0 {
        lemma_summary_prefix(files, s, t, n - 1);
    }
}

proof fn lemma_summary_concat(files: Seq<NativeFile>, a: Seq<usize>, b: Seq<usize>, k: int)
    requires
        0 <= k <= b.len(),
    ensures
        summary_of(files, a + b, a.len() + k) == (
            summary_of(files, a, a.len() as int).0 + summary_of(files, b, k).0,
            summary_of(files, a, a.len() as int).1 + summary_of(files, b, k).1,
            summary_of(files, a, a.len() as int).2 + summary_of(files, b, k).2,
        ),
    decreases k,
{
    if k == 0 {
        lemma_summary_prefix(files, a + b, a, a.len() as int);
    } else {
        lemma_summary_concat(files, a, b, k - 1);
        assert((a + b)[a.len() + k - 1] == b[k - 1]);
    }
}

/// The summary of two lists of files together is the sum of their
/// summaries: counts add up, whatever the files.
pub proof fn summary_adds_up(files: Seq<NativeFile>, a: Seq<usize>, b: Seq<usize>)
    ensures
        summary_of(files, a + b, (a + b).len() as int) == (
            summary_of(files, a, a.len() as int).0 + summary_of(files, b, b.len() as int).0,
            summary_of(files, a, a.len() as int).1 + summary_of(files, b, b.len() as int).1,
            summary_of(files, a, a.len() as int).2 + summary_of(files, b, b.len() as int).2,
        ),
{
    lemma_summary_concat(files, a, b, b.len() as int);
}

proof fn lemma_summary_count(files: Seq<NativeFile>, indices: Seq<usize>, n: int)
    requires
        0 <= n <= indices.len(),
    ensures
        summary_of(files, indices, n).0 <= n,
    decreases n,
{
    if n > 0 {
        lemma_summary_count(files, indices, n - 1);
    }
}

/// The position of the first file whose path is `path`.
fn position_of_path(files: &Vec<NativeFile>, path: &str) -> (r: Option<usize>)
    ensures
        match r {
            Some(i) => first_with_path(files@, path@, files@.len() as int) == Some(i as int),
            None => first_with_path(files@, path@, files@.len() as int) is None,
        },
{
    let target = path.to_owned();
    let mut i: usize = 0;
    while i < files.len()
        invariant
            i <= files@.len(),
            target@ == path@,
            first_with_path(files@, path@, i as int) is None,
        decreases files@.len() - i,
    {
        if files[i].path == target {
            proof {
                assert(first_with_path(files@, path@, i + 1) == Some(i as int));
                lemma_first_stays(files@, path@, i + 1, files@.len() as int);
            }
            return Some(i);
        }
        i = i + 1;
    }
    None
}

impl ReviewModel {
    /// A model of `files` with the saved `annotations`, selecting the first
    /// file whose path is `focus`, else the first file.
    pub fn new(files: Vec<NativeFile>, focus: Option<&str>, annotations: Vec<Annotation>) -> (m: ReviewModel)
        ensures
            m.files@ == files@,
            m.annotations@ == annotations@,
            m.selected == match focus {
                Some(p) => match first_with_path(files@, p@, files@.len() as int) {
                    Some(i) => i,
                    None => 0,
                },
                None => 0,
            },
    {
        let selected = match focus {
            Some(p) => match position_of_path(&files, p) {
                Some(i) => i,
                None => 0,
            },
            None => 0,
        };
        ReviewModel { files, selected, annotations }
    }

    /// The selected file, if the selection is in range.
    pub fn selected_file(&self) -> (f: Option<&NativeFile>)
        ensures
            f == if self.selected < self.files@.len() {
                Some(&self.files@[self.selected as int])
            } else {
                None
            },
    {
        if self.selected < self.files.len() {
            Some(&self.files[self.selected])
        } else {
            None
        }
    }

    /// Adds an annotation on the selected file's first line, asking for a
    /// review of the change; without a selected file nothing changes.
    pub fn add_annotation(&mut self)
        ensures
            final(self).files@ == old(self).files@,
            final(self).selected == old(self).selected,
            old(self).selected >= old(self).files@.len() ==> final(self).annotations@ == old(self).annotations@,
            old(self).selected < old(self).files@.len() ==> {
                &&& final(self).annotations@.len() == old(self).annotations@.len() + 1
                &&& final(self).annotations@.take(old(self).annotations@.len() as int) == old(self).annotations@
                &&& final(self).annotations@.last().file@ == old(self).files@[old(self).selected as int].path@
                &&& final(self).annotations@.last().line == first_line(old(self).files@[old(self).selected as int].rows@)
                &&& final(self).annotations@.last().body@ == ANNOTATION_PROMPT@
            },
    {
        if self.selected < self.files.len() {
            let file = &self.files[self.selected];
            let line = first_line_of(&file.rows);
            let note = Annotation { file: file.path.clone(), line, body: ANNOTATION_PROMPT.to_string() };
            let ghost before = self.annotations@;
            self.annotations.push(note);
            assert(self.annotations@.take(before.len() as int) =~= before);
        }
    }

    /// Replaces the files under review.
    pub fn replace_files(&mut self, files: Vec<NativeFile>)
        ensures
            final(self).files@ == files@,
            final(self).selected == old(self).selected,
            final(self).annotations@ == old(self).annotations@,
    {
        self.files = files;
    }

    /// The summary of the files at `indices`, indices past the end skipped:
    /// how many have TypeScript structure, and their semantic changes and
    /// parse errors added up.
    pub fn review_summary_for_indices(&self, indices: &[usize]) -> (r: ReviewSummary)
        requires
            summary_of(self.files@, indices@, indices@.len() as int).1 <= usize::MAX,
            summary_of(self.files@, indices@, indices@.len() as int).2 <= usize::MAX,
        ensures
            (r.typescript_files as int, r.changed_symbols as int, r.parse_errors as int)
                == summary_of(self.files@, indices@, indices@.len() as int),
    {
        let mut t: usize = 0;
        let mut c: usize = 0;
        let mut e: usize = 0;
        let mut i: usize = 0;
        while i < indices.len()
            invariant
                i <= indices@.len(),
                (t as int, c as int, e as int) == summary_of(self.files@, indices@, i as int),
                summary_of(self.files@, indices@, indices@.len() as int).1 <= usize::MAX,
                summary_of(self.files@, indices@, indices@.len() as int).2 <= usize::MAX,
            decreases indices@.len() - i,
        {
            proof {
                lemma_summary_grows(self.files@, indices@, i + 1, indices@.len() as int);
                lemma_summary_count(self.files@, indices@, i + 1);
            }
            let k = indices[i];
            if k < self.files.len() {
                let f = &self.files[k];
                if f.semantic.symbols.len() > 0 || f.semantic.changes.len() > 0 {
                    t = t + 1;
                }
                c = c + f.semantic.changes.len();
                e = e + f.semantic.parse_errors;
            }
            i = i + 1;
        }
        ReviewSummary { typescript_files: t, changed_symbols: c, parse_errors: e }
    }
}

proof fn lemma_first_stays(files: Seq<NativeFile>, path: Seq<char>, m: int, n: int)
    requires
        0 <= m <= n,
        first_with_path(files, path, m) is Some,
    ensures
        first_with_path(files, path, n) == first_with_path(files, path, m),
    decreases n - m,
{
    if m < n {
        lemma_first_stays(files, path, m, n - 1);
    }
}

/// The first line number of `rows`, new side before old, else 1.
fn first_line_of(rows: &Vec<NativeRow>) -> (line: usize)
    ensures
        line == first_line(rows@),
{
    let mut i: usize = 0;
    assert(rows@.skip(0) =~= rows@);
    while i < rows.len()
        invariant
            i <= rows@.len(),
            first_line(rows@) == first_line(rows@.skip(i as int)),
        decreases rows@.len() - i,
    {
        assert(rows@.skip(i as int)[0] == rows@[i as int]);
        match rows[i].new_number {
            Some(n) => {
                return n;
            },
            None => {},
        }
        match rows[i].old_number {
            Some(n) => {
                return n;
            },
            None => {},
        }
        assert(rows@.skip(i as int).drop_first() =~= rows@.skip(i + 1));
        i = i + 1;
    }
    assert(rows@.skip(i as int) =~= Seq::<NativeRow>::empty());
    1
}

} // verus!
