//! Session-only review notes: line selection in the diff gutter, the
//! targets that comments attach to, and the follow-up prompt they produce.
use vstd::prelude::*;
use vstd::string::StringExecFns;
use crate::text::{
    chars_of, decimal, lines_of, push_char, push_decimal, split_lines, string_of,
};
use crate::text_field::{trim_chars, trimmed};

verus! {

/// An inclusive range of lines of one file.
#[derive(Clone, Debug)]
pub struct LineRange {
    pub file: String,
    pub start: usize,
    pub end: usize,
}

impl PartialEq for LineRange {
    fn eq(&self, other: &Self) -> (r: bool) {
        self.file == other.file && self.start == other.start && self.end == other.end
    }
}

impl vstd::std_specs::cmp::PartialEqSpecImpl for LineRange {
    open spec fn obeys_eq_spec() -> bool {
        true
    }

    open spec fn eq_spec(&self, other: &LineRange) -> bool {
        self.file@ == other.file@ && self.start == other.start && self.end == other.end
    }
}

/// Whether the string slice `a` and the string `b` hold the same text.
fn same_text(a: &str, b: &String) -> (r: bool)
    ensures
        r == (a@ == b@),
{
    let owned = a.to_owned();
    owned == *b
}

/// The lines between two clicked lines as `(first, last)`.
pub open spec fn ordered(anchor: usize, head: usize) -> (usize, usize) {
    if anchor <= head {
        (anchor, head)
    } else {
        (head, anchor)
    }
}

/// Dragging up or down between the same two lines selects the same lines.
pub proof fn drag_direction_irrelevant(anchor: usize, head: usize)
    ensures
        ordered(anchor, head) == ordered(head, anchor),
        ordered(anchor, head).0 <= ordered(anchor, head).1,
{
}

impl LineRange {
    /// The range between two clicked lines, whichever comes first.
    pub fn new(file: String, anchor: usize, head: usize) -> (r: Self)
        ensures
            r.file@ == file@,
            (r.start, r.end) == ordered(anchor, head),
    {
        let start = if anchor <= head { anchor } else { head };
        let end = if anchor <= head { head } else { anchor };
        LineRange { file, start, end }
    }

    pub fn contains(&self, file: &str, line: usize) -> (b: bool)
        ensures
            b == (self.file@ == file@ && self.start <= line && line <= self.end),
    {
        same_text(file, &self.file) && self.start <= line && line <= self.end
    }
}

/// The lines a comment is about: one file and its selected ranges.
#[derive(Clone, Debug)]
pub struct CommentTarget {
    pub file: String,
    pub ranges: Vec<LineRange>,
}

/// A target of one range. Its contract is stated on the impl: a target's
/// ranges are a `Vec`, which no spec function can build, so the trait-level
/// `from_spec` is not used.
impl From<LineRange> for CommentTarget {
    fn from(range: LineRange) -> (t: Self)
        ensures
            t.file@ == range.file@,
            t.ranges@ == seq![range],
    {
        let file = range.file.clone();
        let mut ranges: Vec<LineRange> = Vec::new();
        ranges.push(range);
        CommentTarget { file, ranges }
    }
}

impl vstd::std_specs::convert::FromSpecImpl<LineRange> for CommentTarget {
    open spec fn obeys_from_spec() -> bool {
        false
    }

    open spec fn from_spec(range: LineRange) -> CommentTarget {
        arbitrary()
    }
}

/// `"{start}"` for a single line, `"{start}-{end}"` otherwise.
pub open spec fn range_text(r: LineRange) -> Seq<char> {
    if r.start == r.end {
        decimal(r.start as nat)
    } else {
        decimal(r.start as nat) + seq!['-'] + decimal(r.end as nat)
    }
}

/// The first `n` ranges as text, separated by `", "`.
pub open spec fn ranges_text(ranges: Seq<LineRange>, n: int) -> Seq<char>
    decreases n,
{
    if n <= 0 {
        Seq::empty()
    } else if n == 1 {
        range_text(ranges[0])
    } else {
        ranges_text(ranges, n - 1) + seq![',', ' '] + range_text(ranges[n - 1])
    }
}

/// `"{file}:{ranges}"`, as shown next to a comment and in the prompt.
pub open spec fn location_text(t: CommentTarget) -> Seq<char> {
    t.file@ + seq![':'] + ranges_text(t.ranges@, t.ranges@.len() as int)
}

impl CommentTarget {
    pub fn contains(&self, file: &str, line: usize) -> (b: bool)
        ensures
            b == exists|i: int|
                0 <= i < self.ranges@.len() && #[trigger] self.ranges@[i].file@ == file@
                    && self.ranges@[i].start <= line && line <= self.ranges@[i].end,
    {
        let mut i: usize = 0;
        while i < self.ranges.len()
            invariant
                i <= self.ranges@.len(),
                forall|k: int|
                    0 <= k < i ==> !(#[trigger] self.ranges@[k].file@ == file@
                        && self.ranges@[k].start <= line && line <= self.ranges@[k].end),
            decreases self.ranges@.len() - i,
        {
            if self.ranges[i].contains(file, line) {
                return true;
            }
            i = i + 1;
        }
        false
    }

    /// The file and its ranges, such as `src/a.rs:8, 14-18`.
    pub fn location(&self) -> (s: String)
        ensures
            s@ == location_text(*self),
    {
        let mut s = self.file.clone();
        push_char(&mut s, ':');
        let mut i: usize = 0;
        while i < self.ranges.len()
            invariant
                i <= self.ranges@.len(),
                s@ == self.file@ + seq![':'] + ranges_text(self.ranges@, i as int),
            decreases self.ranges@.len() - i,
        {
            let ghost before = s@;
            if i > 0 {
                push_char(&mut s, ',');
                push_char(&mut s, ' ');
            }
            let range = &self.ranges[i];
            push_decimal(&mut s, range.start);
            if range.start != range.end {
                push_char(&mut s, '-');
                push_decimal(&mut s, range.end);
            }
            assert(s@ =~= self.file@ + seq![':'] + ranges_text(self.ranges@, i + 1));
            i = i + 1;
        }
        s
    }
}

/// Strictly increasing, so that the sequence is the set of selected lines in order.
pub open spec fn sorted(s: Seq<usize>) -> bool {
    forall|i: int, j: int| 0 <= i < j < s.len() ==> s[i] < s[j]
}

/// The lines between `a` and `b`, both included.
pub open spec fn span(a: usize, b: usize) -> Set<usize> {
    Set::new(|k: usize| (a <= k <= b) || (b <= k <= a))
}

/// Dragging from `a` to `b` or from `b` to `a` selects the same lines,
/// both ends included.
pub proof fn drags_cover_the_same_lines(a: usize, b: usize)
    ensures
        span(a, b) == span(b, a),
        span(a, b).contains(a) && span(a, b).contains(b),
{
    assert(span(a, b) =~= span(b, a));
}

proof fn lemma_sorted_set_eq(a: Seq<usize>, b: Seq<usize>)
    requires
        sorted(a),
        sorted(b),
        a.to_set() =~= b.to_set(),
    ensures
        a == b,
    decreases a.len(),
{
    if a.len() == 0 {
        if b.len() > 0 {
            assert(b.to_set().contains(b[0]));
        }
    } else {
        assert(a.to_set().contains(a[0]));
        assert(b.to_set().contains(a[0]));
        assert(b.len() > 0);
        assert(b.to_set().contains(b[0]));
        assert(a.to_set().contains(b[0]));
        let i = choose|i: int| 0 <= i < a.len() && a[i] == b[0];
        let j = choose|j: int| 0 <= j < b.len() && b[j] == a[0];
        assert(a[0] <= a[i]);
        assert(b[0] <= b[j]);
        assert(a[0] == b[0]);
        let ta = a.drop_first();
        let tb = b.drop_first();
        assert forall|x: usize| ta.to_set().contains(x) implies tb.to_set().contains(x) by {
            let k = choose|k: int| 0 <= k < ta.len() && ta[k] == x;
            assert(a[k + 1] == x);
            assert(a.to_set().contains(x));
            let m = choose|m: int| 0 <= m < b.len() && b[m] == x;
            assert(m != 0);
            assert(tb[m - 1] == x);
        }
        assert forall|x: usize| tb.to_set().contains(x) implies ta.to_set().contains(x) by {
            let k = choose|k: int| 0 <= k < tb.len() && tb[k] == x;
            assert(b[k + 1] == x);
            assert(b.to_set().contains(x));
            let m = choose|m: int| 0 <= m < a.len() && a[m] == x;
            assert(m != 0);
            assert(ta[m - 1] == x);
        }
        lemma_sorted_set_eq(ta, tb);
        assert(a =~= seq![a[0]] + ta);
        assert(b =~= seq![b[0]] + tb);
    }
}

/// Whether two line lists are equal.
fn same_lines(a: &Vec<usize>, b: &Vec<usize>) -> (r: bool)
    ensures
        r == (a@ == b@),
{
    if a.len() != b.len() {
        return false;
    }
    let mut i: usize = 0;
    while i < a.len()
        invariant
            a@.len() == b@.len(),
            i <= a@.len(),
            forall|k: int| 0 <= k < i ==> a@[k] == b@[k],
        decreases a@.len() - i,
    {
        if a[i] != b[i] {
            return false;
        }
        i = i + 1;
    }
    assert(a@ =~= b@);
    true
}

/// The sorted lines without `x`, and whether `x` was there.
fn remove_line(v: &Vec<usize>, x: usize) -> (r: (Vec<usize>, bool))
    requires
        sorted(v@),
    ensures
        sorted(r.0@),
        r.0@.to_set() == v@.to_set().remove(x),
        r.1 == v@.to_set().contains(x),
{
    let mut out: Vec<usize> = Vec::new();
    let mut found = false;
    let mut i: usize = 0;
    while i < v.len()
        invariant
            sorted(v@),
            i <= v@.len(),
            sorted(out@),
            forall|k: int| 0 <= k < out@.len() ==> exists|m: int| 0 <= m < i && #[trigger] out@[k] == v@[m],
            forall|m: int| 0 <= m < i && v@[m] != x ==> #[trigger] out@.contains(v@[m]),
            forall|k: int| 0 <= k < out@.len() ==> out@[k] != x,
            found == exists|m: int| 0 <= m < i && v@[m] == x,
        decreases v@.len() - i,
    {
        if v[i] == x {
            found = true;
        } else {
            proof {
                if out@.len() > 0 {
                    let m = choose|m: int| 0 <= m < i && out@[out@.len() - 1] == v@[m];
                    assert(v@[m] < v@[i as int]);
                }
            }
            let ghost prev_out = out@;
            out.push(v[i]);
            proof {
                assert forall|k: int| 0 <= k < out@.len() implies exists|m: int|
                    0 <= m < i + 1 && #[trigger] out@[k] == v@[m] by {
                    if k < out@.len() - 1 {
                        let m = choose|m: int| 0 <= m < i && out@[k] == v@[m];
                        assert(out@[k] == v@[m]);
                    } else {
                        assert(out@[k] == v@[i as int]);
                    }
                }
                assert forall|m: int| 0 <= m < i + 1 && v@[m] != x implies #[trigger] out@.contains(
                    v@[m],
                ) by {
                    if m < i {
                        assert(prev_out.contains(v@[m]));
                        let k = choose|k: int| 0 <= k < prev_out.len() && prev_out[k] == v@[m];
                        assert(out@[k] == v@[m]);
                    } else {
                        assert(out@[out@.len() - 1] == v@[m]);
                    }
                }
            }
        }
        i = i + 1;
    }
    assert(out@.to_set() =~= v@.to_set().remove(x)) by {
        assert forall|y: usize| out@.to_set().contains(y) implies v@.to_set().remove(x).contains(y) by {
            let k = choose|k: int| 0 <= k < out@.len() && out@[k] == y;
            let m = choose|m: int| 0 <= m < i && out@[k] == v@[m];
        }
        assert forall|y: usize| v@.to_set().remove(x).contains(y) implies out@.to_set().contains(y) by {
            let m = choose|m: int| 0 <= m < v@.len() && v@[m] == y;
        }
    }
    (out, found)
}

/// The sorted lines together with every line from `a` to `b`.
fn add_span(v: &Vec<usize>, a: usize, b: usize) -> (out: Vec<usize>)
    requires
        sorted(v@),
    ensures
        sorted(out@),
        out@.to_set() == v@.to_set().union(span(a, b)),
{
    let lo = if a <= b { a } else { b };
    let hi = if a <= b { b } else { a };
    let mut out: Vec<usize> = Vec::new();
    let mut i: usize = 0;
    while i < v.len() && v[i] < lo
        invariant
            sorted(v@),
            i <= v@.len(),
            out@ == v@.take(i as int),
            forall|j: int| 0 <= j < i ==> v@[j] < lo,
        decreases v@.len() - i,
    {
        out.push(v[i]);
        assert(v@.take(i + 1) =~= v@.take(i as int).push(v@[i as int]));
        i = i + 1;
    }
    let i1 = i;
    let mut k = lo;
    loop
        invariant_except_break
            out@.len() == i1 + (k - lo),
        invariant
            sorted(v@),
            lo <= hi,
            i1 <= v@.len(),
            forall|j: int| 0 <= j < i1 ==> v@[j] < lo,
            i1 < v@.len() ==> v@[i1 as int] >= lo,
            lo <= k <= hi,
            forall|t: int| 0 <= t < i1 ==> out@[t] == v@[t],
            forall|t: int| i1 <= t < out@.len() ==> out@[t] == lo + (t - i1),
            sorted(out@),
            out@.len() >= i1,
        ensures
            out@.len() == i1 + (hi - lo + 1),
        decreases hi - k,
    {
        out.push(k);
        if k == hi {
            break;
        }
        k = k + 1;
    }
    let i2_start = i;
    while i < v.len() && v[i] <= hi
        invariant
            sorted(v@),
            i1 == i2_start,
            i1 <= i <= v@.len(),
            forall|j: int| i1 <= j < i ==> lo <= #[trigger] v@[j] && v@[j] <= hi,
            i1 < v@.len() ==> v@[i1 as int] >= lo,
        decreases v@.len() - i,
    {
        i = i + 1;
    }
    let i2 = i;
    let ghost mid = out@;
    while i < v.len()
        invariant
            sorted(v@),
            i2 <= i <= v@.len(),
            forall|j: int| i2 <= j < v@.len() ==> v@[j] > hi,
            out@.len() == mid.len() + (i - i2),
            forall|t: int| 0 <= t < mid.len() ==> out@[t] == mid[t],
            forall|t: int| mid.len() <= t < out@.len() ==> out@[t] == v@[i2 + (t - mid.len())],
            forall|t: int| 0 <= t < mid.len() ==> mid[t] <= hi,
            sorted(mid),
            sorted(out@),
            mid.len() == i1 + (hi - lo + 1),
            forall|t: int| i1 <= t < mid.len() ==> mid[t] == lo + (t - i1),
            forall|t: int| 0 <= t < i1 ==> mid[t] == v@[t],
        decreases v@.len() - i,
    {
        let ghost before = out@;
        proof {
            if out@.len() > mid.len() {
                assert(out@[out@.len() - 1] == v@[i - 1]);
            }
            assert forall|t: int| 0 <= t < before.len() implies #[trigger] before[t] < v@[i as int] by {
                if t >= mid.len() {
                    assert(before[t] == v@[i2 + (t - mid.len())]);
                } else {
                    assert(before[t] == mid[t]);
                }
            }
        }
        out.push(v[i]);
        i = i + 1;
    }
    proof {
        assert forall|y: usize| out@.to_set().contains(y) implies v@.to_set().union(span(a, b)).contains(y) by {
            let t = choose|t: int| 0 <= t < out@.len() && out@[t] == y;
            if t < i1 {
                assert(v@[t] == y);
            } else if t < mid.len() {
                assert(mid[t] == lo + (t - i1));
                assert(lo <= y <= hi);
                assert(span(a, b).contains(y));
            } else {
                assert(v@[i2 + (t - mid.len())] == y);
            }
        }
        assert forall|y: usize| v@.to_set().union(span(a, b)).contains(y) implies out@.to_set().contains(y) by {
            if span(a, b).contains(y) {
                assert(lo <= y <= hi);
                assert(mid[i1 + (y - lo)] == y);
                assert(out@[i1 + (y - lo)] == y);
            } else {
                let j = choose|j: int| 0 <= j < v@.len() && v@[j] == y;
                if j < i1 {
                    assert(out@[j] == y);
                } else if j < i2 {
                    assert(false);
                } else {
                    assert(out@[mid.len() + (j - i2)] == y);
                }
            }
        }
        assert(out@.to_set() =~= v@.to_set().union(span(a, b)));
    }
    out
}


/// The lines selected in the diff gutter of one file, with the state of the
/// click or drag in progress. `lines` and `drag_base` are kept sorted.
pub struct LineSelection {
    pub file: String,
    pub lines: Vec<usize>,
    pub anchor: usize,
    pub drag_anchor: usize,
    pub drag_head: usize,
    pub drag_base: Vec<usize>,
    pub dragging: bool,
}

impl Default for LineSelection {
    fn default() -> (s: Self)
        ensures
            s.wf(),
            s.file@ == Seq::<char>::empty(),
            s.lines@ == Seq::<usize>::empty(),
            s.anchor == 0,
            s.drag_anchor == 0,
            s.drag_head == 0,
            s.drag_base@ == Seq::<usize>::empty(),
            !s.dragging,
    {
        LineSelection {
            file: String::new(),
            lines: Vec::new(),
            anchor: 0,
            drag_anchor: 0,
            drag_head: 0,
            drag_base: Vec::new(),
            dragging: false,
        }
    }
}

/// The selected lines that a click in `file` starts from: those of the
/// selection when it is in the same file, none otherwise.
pub open spec fn base_lines(sel: LineSelection, file: Seq<char>) -> Set<usize> {
    if sel.file@ == file {
        sel.lines@.to_set()
    } else {
        Set::empty()
    }
}

/// The anchor that a click in `file` starts from; 0 when the file changes.
pub open spec fn base_anchor(sel: LineSelection, file: Seq<char>) -> usize {
    if sel.file@ == file {
        sel.anchor
    } else {
        0
    }
}

/// Where the range of a click starts: the previous anchor for a shift-click
/// that has one, the clicked line otherwise.
pub open spec fn click_anchor(sel: LineSelection, file: Seq<char>, line: usize, shift: bool) -> usize {
    if shift && base_anchor(sel, file) > 0 {
        base_anchor(sel, file)
    } else {
        line
    }
}

/// The lines a click keeps: all of them with the command key, none without.
pub open spec fn kept_lines(sel: LineSelection, file: Seq<char>, command: bool) -> Set<usize> {
    if command {
        base_lines(sel, file)
    } else {
        Set::empty()
    }
}

/// A command-click (without shift) on a selected line deselects it.
pub open spec fn click_deselects(
    sel: LineSelection,
    file: Seq<char>,
    line: usize,
    command: bool,
    shift: bool,
) -> bool {
    command && !shift && kept_lines(sel, file, command).contains(line)
}

/// The contiguous runs of a sorted list of lines, as (first, last) pairs.
pub open spec fn runs(s: Seq<usize>) -> Seq<(usize, usize)>
    decreases s.len(),
{
    if s.len() == 0 {
        Seq::empty()
    } else {
        let r = runs(s.drop_last());
        let x = s.last();
        if r.len() > 0 && r.last().1 + 1 == x {
            r.update(r.len() - 1, (r.last().0, x))
        } else {
            r.push((x, x))
        }
    }
}

/// Whether `line` lies in one of the runs.
pub open spec fn in_runs(r: Seq<(usize, usize)>, line: usize) -> bool {
    exists|i: int| 0 <= i < r.len() && #[trigger] r[i].0 <= line && line <= r[i].1
}

/// The runs of a sorted list cover exactly its lines, and the last run ends
/// at its last line.
proof fn lemma_runs(s: Seq<usize>)
    requires
        sorted(s),
    ensures
        forall|line: usize| in_runs(runs(s), line) <==> s.contains(line),
        forall|i: int| 0 <= i < runs(s).len() ==> #[trigger] runs(s)[i].0 <= runs(s)[i].1,
        s.len() > 0 ==> runs(s).len() > 0 && runs(s).last().1 == s.last(),
        s.len() == 0 ==> runs(s).len() == 0,
    decreases s.len(),
{
    if s.len() > 0 {
        let t = s.drop_last();
        assert(sorted(t));
        lemma_runs(t);
        let r = runs(t);
        let x = s.last();
        assert forall|k: int| 0 <= k < t.len() implies t[k] < x by {
            assert(s[k] < s[s.len() - 1]);
        }
        assert forall|line: usize| in_runs(runs(s), line) <==> s.contains(line) by {
            if s.contains(line) {
                let k = choose|k: int| 0 <= k < s.len() && s[k] == line;
                if k < s.len() - 1 {
                    assert(t[k] == line);
                    assert(t.contains(line));
                    assert(in_runs(r, line));
                    let i = choose|i: int| 0 <= i < r.len() && #[trigger] r[i].0 <= line && line <= r[i].1;
                    if r.len() > 0 && r.last().1 + 1 == x && i == r.len() - 1 {
                        assert(runs(s)[i].0 <= line && line <= runs(s)[i].1);
                    } else {
                        assert(runs(s)[i].0 <= line && line <= runs(s)[i].1);
                    }
                } else {
                    let n = runs(s).len() - 1;
                    assert(runs(s)[n].0 <= line && line <= runs(s)[n].1);
                }
            }
            if in_runs(runs(s), line) {
                let i = choose|i: int| 0 <= i < runs(s).len() && #[trigger] runs(s)[i].0 <= line && line <= runs(s)[i].1;
                if r.len() > 0 && r.last().1 + 1 == x {
                    if i == r.len() - 1 {
                        if line <= r.last().1 {
                            assert(r[i].0 <= line && line <= r[i].1);
                            assert(in_runs(r, line));
                            assert(t.contains(line));
                            let k = choose|k: int| 0 <= k < t.len() && t[k] == line;
                            assert(s[k] == line);
                        } else {
                            assert(line == x);
                            assert(s[s.len() - 1] == line);
                        }
                    } else {
                        assert(r[i].0 <= line && line <= r[i].1);
                        assert(in_runs(r, line));
                        assert(t.contains(line));
                        let k = choose|k: int| 0 <= k < t.len() && t[k] == line;
                        assert(s[k] == line);
                    }
                } else {
                    if i == r.len() {
                        assert(line == x);
                        assert(s[s.len() - 1] == line);
                    } else {
                        assert(r[i].0 <= line && line <= r[i].1);
                        assert(in_runs(r, line));
                        assert(t.contains(line));
                        let k = choose|k: int| 0 <= k < t.len() && t[k] == line;
                        assert(s[k] == line);
                    }
                }
            }
        }
        if t.len() > 0 {
            assert(r.last().1 == t.last());
            assert(t.last() < x);
        }
    }
}

impl LineSelection {
    /// Both line lists are sorted.
    pub open spec fn wf(&self) -> bool {
        sorted(self.lines@) && sorted(self.drag_base@)
    }

    /// A click on `line` of `file`. A plain click selects the line alone; with
    /// the command key the line is added, or removed when it was selected;
    /// with shift the range from the previous anchor is added. A click in
    /// another file starts a new selection there. A drag may follow.
    pub fn click(&mut self, file: &str, line: usize, command: bool, shift: bool)
        requires
            old(self).wf(),
        ensures
            final(self).wf(),
            final(self).file@ == file@,
            final(self).dragging,
            final(self).drag_anchor == click_anchor(*old(self), file@, line, shift),
            final(self).drag_head == line,
            final(self).anchor == (if shift { base_anchor(*old(self), file@) } else { line }),
            final(self).lines@.to_set() == (if click_deselects(*old(self), file@, line, command, shift) {
                kept_lines(*old(self), file@, command).remove(line)
            } else {
                kept_lines(*old(self), file@, command).union(
                    span(click_anchor(*old(self), file@, line, shift), line),
                )
            }),
            final(self).drag_base@.to_set() == (if click_deselects(
                *old(self),
                file@,
                line,
                command,
                shift,
            ) {
                kept_lines(*old(self), file@, command).remove(line)
            } else {
                kept_lines(*old(self), file@, command)
            }),
    {
        let ghost start = *old(self);
        if !same_text(file, &self.file) {
            *self = LineSelection {
                file: file.to_owned(),
                lines: Vec::new(),
                anchor: 0,
                drag_anchor: 0,
                drag_head: 0,
                drag_base: Vec::new(),
                dragging: false,
            };
            assert(self.lines@.to_set() =~= Set::<usize>::empty());
        }
        assert(self.lines@.to_set() == base_lines(start, file@));
        assert(self.anchor == base_anchor(start, file@));
        let anchor = if shift && self.anchor > 0 {
            self.anchor
        } else {
            line
        };
        if !command {
            self.lines = Vec::new();
            assert(self.lines@.to_set() =~= Set::<usize>::empty());
        }
        assert(self.lines@.to_set() == kept_lines(start, file@, command));
        self.drag_base = self.lines.clone();
        assert(self.drag_base@ == self.lines@);
        self.drag_anchor = anchor;
        self.drag_head = line;
        let mut removed = false;
        if command && !shift {
            let (rest, found) = remove_line(&self.lines, line);
            if found {
                self.lines = rest;
                self.drag_base = self.lines.clone();
                assert(self.drag_base@ == self.lines@);
                removed = true;
            }
        }
        if !removed {
            self.lines = add_span(&self.lines, anchor, line);
        }
        if !shift {
            self.anchor = line;
        }
        self.dragging = true;
    }

    /// Extends a drag in progress to `line`: the lines selected before the
    /// drag together with the range from its anchor. Whether the selection
    /// changed.
    pub fn drag_to(&mut self, file: &str, line: usize) -> (changed: bool)
        requires
            old(self).wf(),
        ensures
            final(self).wf(),
            !(old(self).dragging && old(self).file@ == file@ && old(self).drag_head != line) ==> {
                &&& !changed
                &&& *final(self) == *old(self)
            },
            (old(self).dragging && old(self).file@ == file@ && old(self).drag_head != line) ==> {
                &&& final(self).drag_head == line
                &&& final(self).lines@.to_set() == old(self).drag_base@.to_set().union(
                    span(old(self).drag_anchor, line),
                )
                &&& changed == (final(self).lines@.to_set() != old(self).lines@.to_set())
                &&& final(self).file == old(self).file
                &&& final(self).anchor == old(self).anchor
                &&& final(self).drag_anchor == old(self).drag_anchor
                &&& final(self).drag_base == old(self).drag_base
                &&& final(self).dragging == old(self).dragging
            },
    {
        if !self.dragging || !same_text(file, &self.file) || self.drag_head == line {
            return false;
        }
        self.drag_head = line;
        let lines = add_span(&self.drag_base, self.drag_anchor, line);
        if same_lines(&lines, &self.lines) {
            return false;
        }
        proof {
            if lines@.to_set() == self.lines@.to_set() {
                lemma_sorted_set_eq(lines@, self.lines@);
            }
        }
        self.lines = lines;
        true
    }

    /// The selection as a comment target: one range per run of consecutive
    /// lines, or `None` when nothing is selected.
    pub fn target(&self) -> (t: Option<CommentTarget>)
        requires
            self.wf(),
        ensures
            self.lines@.len() == 0 ==> t is None,
            self.lines@.len() > 0 ==> t is Some,
            t matches Some(target) ==> {
                &&& target.file@ == self.file@
                &&& target.ranges@.len() == runs(self.lines@).len()
                &&& forall|i: int|
                    0 <= i < target.ranges@.len() ==> {
                        &&& (#[trigger] target.ranges@[i]).file@ == self.file@
                        &&& target.ranges@[i].start == runs(self.lines@)[i].0
                        &&& target.ranges@[i].end == runs(self.lines@)[i].1
                    }
            },
            t matches Some(target) ==> forall|line: usize|
                #[trigger] in_runs(runs(self.lines@), line) <==> self.lines@.contains(line),
    {
        let mut ranges: Vec<LineRange> = Vec::new();
        let mut i: usize = 0;
        while i < self.lines.len()
            invariant
                i <= self.lines@.len(),
                ranges@.len() == runs(self.lines@.take(i as int)).len(),
                forall|k: int|
                    0 <= k < ranges@.len() ==> {
                        &&& (#[trigger] ranges@[k]).file@ == self.file@
                        &&& ranges@[k].start == runs(self.lines@.take(i as int))[k].0
                        &&& ranges@[k].end == runs(self.lines@.take(i as int))[k].1
                    },
            decreases self.lines@.len() - i,
        {
            let line = self.lines[i];
            let ghost prev = runs(self.lines@.take(i as int));
            assert(self.lines@.take(i + 1).drop_last() =~= self.lines@.take(i as int));
            let n = ranges.len();
            if n > 0 && ranges[n - 1].end < usize::MAX && ranges[n - 1].end + 1 == line {
                let mut last = ranges.pop().unwrap();
                last.end = line;
                ranges.push(last);
                assert forall|k: int| 0 <= k < ranges@.len() implies {
                    &&& (#[trigger] ranges@[k]).file@ == self.file@
                    &&& ranges@[k].start == runs(self.lines@.take(i + 1))[k].0
                    &&& ranges@[k].end == runs(self.lines@.take(i + 1))[k].1
                } by {
                }
            } else {
                ranges.push(LineRange::new(self.file.clone(), line, line));
                assert forall|k: int| 0 <= k < ranges@.len() implies {
                    &&& (#[trigger] ranges@[k]).file@ == self.file@
                    &&& ranges@[k].start == runs(self.lines@.take(i + 1))[k].0
                    &&& ranges@[k].end == runs(self.lines@.take(i + 1))[k].1
                } by {
                }
            }
            i = i + 1;
        }
        assert(self.lines@.take(self.lines@.len() as int) =~= self.lines@);
        proof {
            lemma_runs(self.lines@);
        }
        if ranges.len() == 0 {
            None
        } else {
            Some(CommentTarget { file: self.file.clone(), ranges })
        }
    }
}


/// A review note on some lines.
#[derive(Clone, Debug)]
pub struct Comment {
    pub target: CommentTarget,
    pub body: String,
}

/// The opening of the follow-up prompt, before the numbered comments.
pub const PROMPT_HEADER: &'static str = "After reviewing your changes, I have the following questions and feedback.\n\nPlease inspect the relevant code and address each numbered comment in order, referencing its file and line range. Explain the reasoning behind the current implementation when answering questions. Where I explicitly request a change, make the focused update and describe how you validated it. If a comment is ambiguous, ask a focused follow-up question before changing behavior.\n\nLine numbers refer to the working copy at the time of review; if the code has moved, locate the corresponding code first.\n\nReview comments:\n";

/// The first `n` lines of a comment body, each indented by three spaces and
/// ended by a newline.
pub open spec fn body_text(lines: Seq<Seq<char>>, n: int) -> Seq<char>
    decreases n,
{
    if n <= 0 || n > lines.len() {
        Seq::empty()
    } else {
        body_text(lines, n - 1) + seq![' ', ' ', ' '] + lines[n - 1] + seq!['\n']
    }
}

/// Comment number `number`: a blank line, `"{number}. {location}"`, then
/// its body.
pub open spec fn note_text(number: nat, c: Comment) -> Seq<char> {
    seq!['\n'] + decimal(number) + seq!['.', ' '] + location_text(c.target) + seq!['\n']
        + body_text(split_lines(c.body@), split_lines(c.body@).len() as int)
}

/// The first `n` comments, numbered from 1.
pub open spec fn notes_text(comments: Seq<Comment>, n: int) -> Seq<char>
    decreases n,
{
    if n <= 0 || n > comments.len() {
        Seq::empty()
    } else {
        notes_text(comments, n - 1) + note_text(n as nat, comments[n - 1])
    }
}

/// Appends the body lines of a comment, indented.
fn push_body(prompt: &mut String, body: &String)
    ensures
        final(prompt)@ == old(prompt)@ + body_text(
            split_lines(body@),
            split_lines(body@).len() as int,
        ),
{
    let lines = lines_of(body.as_str());
    let ghost ls = split_lines(body@);
    let mut i: usize = 0;
    while i < lines.len()
        invariant
            i <= lines@.len(),
            lines@.len() == ls.len(),
            forall|k: int| 0 <= k < lines@.len() ==> #[trigger] lines@[k]@ == ls[k],
            prompt@ == old(prompt)@ + body_text(ls, i as int),
        decreases lines@.len() - i,
    {
        push_char(prompt, ' ');
        push_char(prompt, ' ');
        push_char(prompt, ' ');
        prompt.append(lines[i].as_str());
        push_char(prompt, '\n');
        assert(prompt@ =~= old(prompt)@ + body_text(ls, i + 1));
        i = i + 1;
    }
}

/// The text to hand back to the author of the changes: an instruction, then
/// every comment numbered in order with its location and its body indented.
/// Empty when there are no comments.
pub fn follow_up_prompt(comments: &[Comment]) -> (prompt: String)
    ensures
        comments@.len() == 0 ==> prompt@ == Seq::<char>::empty(),
        comments@.len() > 0 ==> prompt@ == PROMPT_HEADER@ + notes_text(
            comments@,
            comments@.len() as int,
        ),
{
    if comments.len() == 0 {
        return String::new();
    }
    let mut prompt = String::new();
    prompt.append(PROMPT_HEADER);
    let mut i: usize = 0;
    while i < comments.len()
        invariant
            i <= comments@.len(),
            prompt@ == PROMPT_HEADER@ + notes_text(comments@, i as int),
        decreases comments@.len() - i,
    {
        let ghost before = prompt@;
        push_char(&mut prompt, '\n');
        push_decimal(&mut prompt, i + 1);
        push_char(&mut prompt, '.');
        push_char(&mut prompt, ' ');
        let location = comments[i].target.location();
        prompt.append(location.as_str());
        push_char(&mut prompt, '\n');
        push_body(&mut prompt, &comments[i].body);
        assert(prompt@ =~= before + note_text((i + 1) as nat, comments@[i as int]));
        assert(prompt@ =~= PROMPT_HEADER@ + notes_text(comments@, i + 1));
        i = i + 1;
    }
    prompt
}


/// A selection with nothing selected (what `LineSelection::default` gives).
pub open spec fn cleared(sel: LineSelection) -> bool {
    &&& sel.wf()
    &&& sel.file@ == Seq::<char>::empty()
    &&& sel.lines@ == Seq::<usize>::empty()
    &&& sel.anchor == 0
    &&& sel.drag_anchor == 0
    &&& sel.drag_head == 0
    &&& sel.drag_base@ == Seq::<usize>::empty()
    &&& !sel.dragging
}

/// Saves the drafted comment: `body` without leading and trailing
/// whitespace becomes the comment on the draft's target, appended to the
/// repository's `comments`; the draft is used up, the line selection
/// cleared and the copied mark reset. When the trimmed body is empty or
/// nothing is drafted, nothing changes and `false` comes back.
pub fn add_comment(
    comments: &mut Vec<Comment>,
    draft: &mut Option<CommentTarget>,
    selection: &mut LineSelection,
    copied: &mut bool,
    body: &str,
) -> (added: bool)
    ensures
        added == (trimmed(body@).len() > 0 && *old(draft) is Some),
        added ==> {
            &&& final(comments)@.len() == old(comments)@.len() + 1
            &&& final(comments)@.take(old(comments)@.len() as int) == old(comments)@
            &&& final(comments)@.last().target == old(draft).unwrap()
            &&& final(comments)@.last().body@ == trimmed(body@)
            &&& *final(draft) is None
            &&& cleared(*final(selection))
            &&& !*final(copied)
        },
        !added ==> {
            &&& final(comments)@ == old(comments)@
            &&& *final(draft) == *old(draft)
            &&& *final(selection) == *old(selection)
            &&& *final(copied) == *old(copied)
        },
{
    let text = trim_chars(&chars_of(body));
    if text.len() == 0 {
        return false;
    }
    let target = match draft.take() {
        Some(t) => t,
        None => {
            return false;
        },
    };
    let ghost before = comments@;
    comments.push(Comment { target, body: string_of(&text, 0, text.len()) });
    assert(comments@.take(before.len() as int) =~= before);
    *selection = LineSelection::default();
    *copied = false;
    true
}

} // verus!
