//! The editing behaviour of the file-filter input and the comment composer:
//! the text, the selection and the text being composed by an input method,
//! and what each key does to them. Offsets count characters.
use vstd::prelude::*;
use crate::text::{chars_of, string_of};
use crate::text_edit::{char_is_whitespace, is_whitespace};

verus! {

/// What the input reports to its owner.
pub enum InputEvent {
    Submit(String),
    Invalid(String),
    Changed,
    Dismiss,
}

/// An event as values.
pub enum EventView {
    Submit(Seq<char>),
    Invalid(Seq<char>),
    Changed,
    Dismiss,
}

pub open spec fn event_view(e: InputEvent) -> EventView {
    match e {
        InputEvent::Submit(s) => EventView::Submit(s@),
        InputEvent::Invalid(s) => EventView::Invalid(s@),
        InputEvent::Changed => EventView::Changed,
        InputEvent::Dismiss => EventView::Dismiss,
    }
}

pub open spec fn event_views(es: Seq<InputEvent>) -> Seq<EventView> {
    es.map_values(|e: InputEvent| event_view(e))
}

/// The keys the input reacts to; `Char` keys act only with the platform's
/// command modifier.
#[derive(Clone, Copy, Debug, PartialEq, Eq, Structural)]
pub enum KeyName {
    Enter,
    Escape,
    Backspace,
    Delete,
    Left,
    Right,
    Home,
    End,
    Up,
    Down,
    Char(char),
    Other,
}

/// An editable text with its selection, `selected.0..selected.1`, whose
/// moving end is the start when `reversed`, and the range an input method
/// is composing, if any.
pub struct TextField {
    pub content: Vec<char>,
    pub selected: (usize, usize),
    pub reversed: bool,
    pub marked: Option<(usize, usize)>,
    pub multiline: bool,
}

/// The editing state as values.
pub struct FieldState {
    pub content: Seq<char>,
    pub start: int,
    pub end: int,
    pub reversed: bool,
    pub marked: Option<(int, int)>,
}

pub open spec fn marked_view(m: Option<(usize, usize)>) -> Option<(int, int)> {
    match m {
        Some((a, b)) => Some((a as int, b as int)),
        None => None,
    }
}

pub open spec fn state_of(f: TextField) -> FieldState {
    FieldState {
        content: f.content@,
        start: f.selected.0 as int,
        end: f.selected.1 as int,
        reversed: f.reversed,
        marked: marked_view(f.marked),
    }
}

/// Offsets within the text, the selection ordered.
pub open spec fn field_wf(st: FieldState) -> bool {
    &&& 0 <= st.start <= st.end <= st.content.len()
    &&& st.marked matches Some((a, b)) ==> 0 <= a <= b <= st.content.len()
}

/// Where the caret is: the moving end of the selection.
pub open spec fn cursor(st: FieldState) -> int {
    if st.reversed {
        st.start
    } else {
        st.end
    }
}

/// The caret put at `offset`, at most the text's end, nothing selected.
pub open spec fn moved_to(st: FieldState, offset: int) -> FieldState {
    let o = if offset <= st.content.len() { offset } else { st.content.len() as int };
    FieldState { start: o, end: o, reversed: false, ..st }
}

/// The selection stretched from its fixed end to `offset`.
pub open spec fn selected_to(st: FieldState, offset: int) -> FieldState {
    let anchor = if st.reversed { st.end } else { st.start };
    FieldState {
        start: if anchor <= offset { anchor } else { offset },
        end: if anchor <= offset { offset } else { anchor },
        reversed: offset < anchor,
        ..st
    }
}

/// The character boundary before `offset`.
pub open spec fn previous_boundary(offset: int) -> int {
    if offset > 0 {
        offset - 1
    } else {
        0
    }
}

/// The character boundary after `offset`, at most the text's length.
pub open spec fn next_boundary(len: int, offset: int) -> int {
    if offset + 1 < len {
        offset + 1
    } else {
        len
    }
}

/// The selection replaced by `text`, the caret after it, nothing composed.
pub open spec fn replaced(st: FieldState, text: Seq<char>) -> FieldState {
    FieldState {
        content: st.content.take(st.start) + text + st.content.skip(st.end),
        start: st.start + text.len(),
        end: st.start + text.len(),
        reversed: false,
        marked: None,
    }
}

/// Everything selected.
pub open spec fn all_selected(st: FieldState) -> FieldState {
    FieldState { start: 0, end: st.content.len() as int, reversed: false, ..st }
}

/// An empty field.
pub open spec fn cleared(st: FieldState) -> FieldState {
    FieldState { content: Seq::empty(), start: 0, end: 0, reversed: false, marked: None }
}

/// The start of the line the caret is on.
pub open spec fn line_start(s: Seq<char>, cursor: int) -> int
    decreases cursor,
{
    if cursor <= 0 {
        0
    } else if s[cursor - 1] == '\n' {
        cursor
    } else {
        line_start(s, cursor - 1)
    }
}

/// The end of the line the caret is on: the next line break, or the text's
/// end.
pub open spec fn line_end(s: Seq<char>, cursor: int) -> int
    decreases s.len() - cursor,
{
    if cursor >= s.len() {
        s.len() as int
    } else if s[cursor] == '\n' {
        cursor
    } else {
        line_end(s, cursor + 1)
    }
}

/// The number of leading whitespace characters.
pub open spec fn leading_space(s: Seq<char>) -> nat
    decreases s.len(),
{
    if s.len() > 0 && is_whitespace(s[0]) {
        1 + leading_space(s.drop_first())
    } else {
        0
    }
}

/// The number of trailing whitespace characters.
pub open spec fn trailing_space(s: Seq<char>) -> nat
    decreases s.len(),
{
    if s.len() > 0 && is_whitespace(s.last()) {
        1 + trailing_space(s.drop_last())
    } else {
        0
    }
}

/// The text without leading and trailing whitespace (`str::trim`).
pub open spec fn trimmed(s: Seq<char>) -> Seq<char> {
    let t = s.skip(leading_space(s) as int);
    t.take(t.len() - trailing_space(t))
}

/// Pasted text for a single-line field: without line breaks.
pub open spec fn without_breaks(s: Seq<char>) -> Seq<char>
    decreases s.len(),
{
    if s.len() == 0 {
        s
    } else if s.last() == '\r' || s.last() == '\n' {
        without_breaks(s.drop_last())
    } else {
        without_breaks(s.drop_last()).push(s.last())
    }
}

/// Pasted text for a multiline field: `\r\n` and lone `\r` become `\n`.
pub open spec fn unix_breaks(s: Seq<char>) -> Seq<char>
    decreases s.len(),
{
    if s.len() == 0 {
        s
    } else if s[0] == '\r' && s.len() >= 2 && s[1] == '\n' {
        seq!['\n'] + unix_breaks(s.skip(2))
    } else if s[0] == '\r' {
        seq!['\n'] + unix_breaks(s.drop_first())
    } else {
        seq![s[0]] + unix_breaks(s.drop_first())
    }
}

proof fn lemma_line_start_bound(s: Seq<char>, cursor: int)
    ensures
        cursor >= 0 ==> 0 <= line_start(s, cursor) <= cursor,
    decreases cursor,
{
    if cursor > 0 {
        lemma_line_start_bound(s, cursor - 1);
    }
}

proof fn lemma_line_end_bound(s: Seq<char>, cursor: int)
    ensures
        cursor <= s.len() ==> cursor <= line_end(s, cursor) <= s.len(),
        cursor > s.len() ==> line_end(s, cursor) == s.len(),
    decreases s.len() - cursor,
{
    if cursor < s.len() {
        lemma_line_end_bound(s, cursor + 1);
    }
}

proof fn lemma_space_bounds(s: Seq<char>)
    ensures
        leading_space(s) <= s.len(),
        trailing_space(s) <= s.len(),
    decreases s.len(),
{
    if s.len() > 0 {
        lemma_space_bounds(s.drop_first());
        lemma_space_bounds(s.drop_last());
    }
}


/// The characters `v[from..to]`.
fn slice_chars(v: &Vec<char>, from: usize, to: usize) -> (r: Vec<char>)
    requires
        from <= to <= v@.len(),
    ensures
        r@ == v@.subrange(from as int, to as int),
{
    let mut r: Vec<char> = Vec::new();
    let mut i = from;
    while i < to
        invariant
            from <= i <= to <= v@.len(),
            r@ == v@.subrange(from as int, i as int),
        decreases to - i,
    {
        r.push(v[i]);
        assert(v@.subrange(from as int, i + 1) =~= v@.subrange(from as int, i as int).push(v@[i as int]));
        i = i + 1;
    }
    r
}

/// The text without leading and trailing whitespace.
pub fn trim_chars(s: &Vec<char>) -> (r: Vec<char>)
    ensures
        r@ == trimmed(s@),
{
    let mut a: usize = 0;
    assert(s@.skip(0) =~= s@);
    while a < s.len() && char_is_whitespace(s[a])
        invariant
            a <= s@.len(),
            leading_space(s@) == a + leading_space(s@.skip(a as int)),
        decreases s@.len() - a,
    {
        assert(s@.skip(a as int).drop_first() =~= s@.skip(a + 1));
        a = a + 1;
    }
    let ghost t = s@.skip(a as int);
    proof {
        lemma_space_bounds(t);
        if a < s@.len() {
            assert(t[0] == s@[a as int]);
        }
    }
    assert(leading_space(t) == 0);
    let mut b: usize = s.len();
    assert(t.take(t.len() as int) =~= t);
    while b > a && char_is_whitespace(s[b - 1])
        invariant
            a <= b <= s@.len(),
            t == s@.skip(a as int),
            trailing_space(t) == (s@.len() - b) + trailing_space(t.take(b - a)),
        decreases b,
    {
        assert(t.take(b - a).last() == s@[b - 1]);
        assert(t.take(b - a).drop_last() =~= t.take(b - 1 - a));
        b = b - 1;
    }
    proof {
        if b > a {
            assert(t.take(b - a).last() == s@[b - 1]);
        }
        lemma_space_bounds(t.take(b - a));
        assert(trailing_space(t.take(b - a)) == 0);
    }
    let r = slice_chars(s, a, b);
    assert(r@ =~= t.take(t.len() - trailing_space(t)));
    r
}

/// Pasted text made single-line.
fn drop_breaks(v: &Vec<char>) -> (r: Vec<char>)
    ensures
        r@ == without_breaks(v@),
{
    let mut r: Vec<char> = Vec::new();
    let mut i: usize = 0;
    while i < v.len()
        invariant
            i <= v@.len(),
            r@ == without_breaks(v@.take(i as int)),
        decreases v@.len() - i,
    {
        assert(v@.take(i + 1).drop_last() =~= v@.take(i as int));
        assert(v@.take(i + 1).last() == v@[i as int]);
        if v[i] != '\r' && v[i] != '\n' {
            r.push(v[i]);
        }
        i = i + 1;
    }
    assert(v@.take(v@.len() as int) =~= v@);
    r
}

/// Pasted text with `\r\n` and lone `\r` turned into `\n`.
fn normalize_breaks(v: &Vec<char>) -> (r: Vec<char>)
    ensures
        r@ == unix_breaks(v@),
{
    let mut r: Vec<char> = Vec::new();
    let mut i: usize = 0;
    assert(v@.skip(0) =~= v@);
    assert(r@ + unix_breaks(v@.skip(0)) =~= unix_breaks(v@));
    while i < v.len()
        invariant
            i <= v@.len(),
            r@ + unix_breaks(v@.skip(i as int)) == unix_breaks(v@),
        decreases v@.len() - i,
    {
        let ghost rest = v@.skip(i as int);
        assert(rest[0] == v@[i as int]);
        let ghost r0 = r@;
        if v[i] == '\r' && i + 1 < v.len() && v[i + 1] == '\n' {
            assert(rest[1] == v@[i + 1]);
            assert(rest.skip(2) =~= v@.skip(i + 2));
            r.push('\n');
            assert(r0 + unix_breaks(rest) =~= r@ + unix_breaks(v@.skip(i + 2)));
            i = i + 2;
        } else {
            assert(rest.drop_first() =~= v@.skip(i + 1));
            if v[i] == '\r' {
                r.push('\n');
            } else {
                r.push(v[i]);
            }
            assert(r0 + unix_breaks(rest) =~= r@ + unix_breaks(v@.skip(i + 1)));
            i = i + 1;
        }
    }
    assert(v@.skip(i as int) =~= Seq::<char>::empty());
    assert(r@ + unix_breaks(v@.skip(i as int)) =~= r@);
    r
}

impl TextField {
    /// The field's editing state, ordered and within the text.
    pub open spec fn wf(&self) -> bool {
        field_wf(state_of(*self))
    }

    /// An empty field; `multiline` fields take line breaks.
    pub fn new(multiline: bool) -> (f: TextField)
        ensures
            f.wf(),
            state_of(f) == (FieldState { content: Seq::empty(), start: 0, end: 0, reversed: false, marked: None }),
            f.multiline == multiline,
    {
        TextField { content: Vec::new(), selected: (0, 0), reversed: false, marked: None, multiline }
    }

    /// The text.
    pub fn text(&self) -> (s: String)
        ensures
            s@ == self.content@,
    {
        string_of(&self.content, 0, self.content.len())
    }

    /// Empties the field.
    pub fn clear(&mut self)
        ensures
            final(self).wf(),
            state_of(*final(self)) == cleared(state_of(*old(self))),
            final(self).multiline == old(self).multiline,
    {
        self.content = Vec::new();
        self.selected = (0, 0);
        self.reversed = false;
        self.marked = None;
    }

    /// Where the caret is.
    pub fn cursor_offset(&self) -> (c: usize)
        ensures
            c == cursor(state_of(*self)),
    {
        if self.reversed {
            self.selected.0
        } else {
            self.selected.1
        }
    }

    /// Puts the caret at `offset`, at most the text's end.
    pub fn move_to(&mut self, offset: usize)
        requires
            old(self).wf(),
        ensures
            final(self).wf(),
            state_of(*final(self)) == moved_to(state_of(*old(self)), offset as int),
            final(self).multiline == old(self).multiline,
    {
        let o = if offset <= self.content.len() {
            offset
        } else {
            self.content.len()
        };
        self.selected = (o, o);
        self.reversed = false;
    }

    /// Stretches the selection from its fixed end to `offset`.
    pub fn select_to(&mut self, offset: usize)
        requires
            old(self).wf(),
            offset <= old(self).content@.len(),
        ensures
            final(self).wf(),
            state_of(*final(self)) == selected_to(state_of(*old(self)), offset as int),
            final(self).multiline == old(self).multiline,
    {
        let anchor = if self.reversed {
            self.selected.1
        } else {
            self.selected.0
        };
        self.selected = if anchor <= offset {
            (anchor, offset)
        } else {
            (offset, anchor)
        };
        self.reversed = offset < anchor;
    }

    /// Replaces the selection with `text`, putting the caret after it.
    pub fn replace_selection(&mut self, text: &Vec<char>) -> (e: InputEvent)
        requires
            old(self).wf(),
        ensures
            final(self).wf(),
            state_of(*final(self)) == replaced(state_of(*old(self)), text@),
            event_view(e) == EventView::Changed,
            final(self).multiline == old(self).multiline,
    {
        let (start, end) = self.selected;
        let mut content = slice_chars(&self.content, 0, start);
        let mut i: usize = 0;
        let ghost c0 = content@;
        while i < text.len()
            invariant
                i <= text@.len(),
                content@ == c0 + text@.take(i as int),
            decreases text@.len() - i,
        {
            content.push(text[i]);
            assert(text@.take(i + 1) =~= text@.take(i as int).push(text@[i as int]));
            i = i + 1;
        }
        assert(text@.take(text@.len() as int) =~= text@);
        let tail = slice_chars(&self.content, end, self.content.len());
        let ghost c1 = content@;
        let mut j: usize = 0;
        while j < tail.len()
            invariant
                j <= tail@.len(),
                content@ == c1 + tail@.take(j as int),
            decreases tail@.len() - j,
        {
            content.push(tail[j]);
            assert(tail@.take(j + 1) =~= tail@.take(j as int).push(tail@[j as int]));
            j = j + 1;
        }
        assert(tail@.take(tail@.len() as int) =~= tail@);
        assert(self.content@.subrange(0, start as int) =~= self.content@.take(start as int));
        assert(self.content@.subrange(end as int, self.content@.len() as int) =~= self.content@.skip(end as int));
        let cursor = content.len() - tail.len();
        self.content = content;
        self.selected = (cursor, cursor);
        self.reversed = false;
        self.marked = None;
        InputEvent::Changed
    }

    /// Selects the whole text.
    pub fn select_all(&mut self)
        requires
            old(self).wf(),
        ensures
            final(self).wf(),
            state_of(*final(self)) == all_selected(state_of(*old(self))),
            final(self).multiline == old(self).multiline,
    {
        self.selected = (0, self.content.len());
        self.reversed = false;
    }

    /// The selected text, when something is selected.
    pub fn selected_text(&self) -> (r: Option<String>)
        requires
            self.wf(),
        ensures
            match r {
                Some(t) => self.selected.0 < self.selected.1 && t@ == self.content@.subrange(
                    self.selected.0 as int,
                    self.selected.1 as int,
                ),
                None => self.selected.0 == self.selected.1,
            },
    {
        if self.selected.0 < self.selected.1 {
            Some(string_of(&self.content, self.selected.0, self.selected.1))
        } else {
            None
        }
    }
}


/// The error `globset::Glob::new` gives for a pattern, as its message;
/// `None` when the pattern compiles.
pub uninterp spec fn glob_error_of(pattern: Seq<char>) -> Option<Seq<char>>;

/// `globset::Glob::new`: `None` when `pattern` compiles as a glob,
/// otherwise the error's message. Claimed: the outcome depends on the
/// pattern alone.
#[verifier::external_body]
fn glob_error(pattern: &str) -> (r: Option<String>)
    ensures
        match r {
            Some(m) => glob_error_of(pattern@) == Some(m@),
            None => glob_error_of(pattern@) is None,
        },
{
    match globset::Glob::new(pattern) {
        Ok(_) => None,
        Err(error) => Some(error.to_string()),
    }
}

/// What a key did besides editing: the events for the owner, the text to
/// put on the clipboard, and whether the key was used (and so goes no
/// further).
pub struct KeyOutcome {
    pub events: Vec<InputEvent>,
    pub copied: Option<String>,
    pub handled: bool,
}

pub const EMPTY_PATTERN_MESSAGE: &'static str = "Enter a glob pattern first.";

/// The caret moved, or the selection stretched, to `offset`.
pub open spec fn moved(st: FieldState, offset: int, shift: bool) -> FieldState {
    if shift {
        selected_to(st, offset)
    } else {
        moved_to(st, offset)
    }
}

/// The selection, or when nothing is selected the range from `from` to
/// `to`, deleted.
pub open spec fn deleted(st: FieldState, from: int, to: int) -> (FieldState, Seq<EventView>) {
    let st1 = if st.start == st.end { FieldState { start: from, end: to, ..st } } else { st };
    if st1.start < st1.end {
        (replaced(st1, Seq::empty()), seq![EventView::Changed])
    } else {
        (st1, Seq::empty())
    }
}

/// The selected text, when something is selected.
pub open spec fn selection_text(st: FieldState) -> Option<Seq<char>> {
    if st.start < st.end {
        Some(st.content.subrange(st.start, st.end))
    } else {
        None
    }
}

/// What a key does: the new state, the events, the copied text and whether
/// the key was used. `vertical` is where the caret goes for up and down,
/// found from the text's layout; `clipboard` is what a paste inserts.
pub open spec fn key_result(
    st: FieldState,
    multiline: bool,
    key: KeyName,
    shift: bool,
    secondary: bool,
    clipboard: Option<Seq<char>>,
    vertical: int,
) -> (FieldState, Seq<EventView>, Option<Seq<char>>, bool) {
    let c = cursor(st);
    let len = st.content.len() as int;
    let empty = st.start == st.end;
    match key {
        KeyName::Enter => if multiline {
            if secondary {
                if trimmed(st.content).len() > 0 {
                    (st, seq![EventView::Submit(trimmed(st.content))], None, true)
                } else {
                    (st, Seq::empty(), None, true)
                }
            } else {
                (replaced(st, seq!['\n']), seq![EventView::Changed], None, true)
            }
        } else {
            let pattern = trimmed(st.content);
            if pattern.len() == 0 {
                (st, seq![EventView::Invalid(EMPTY_PATTERN_MESSAGE@)], None, true)
            } else {
                match glob_error_of(pattern) {
                    None => (cleared(st), seq![EventView::Submit(pattern)], None, true),
                    Some(message) => (st, seq![EventView::Invalid(message)], None, true),
                }
            }
        },
        KeyName::Escape => (st, seq![EventView::Dismiss], None, true),
        KeyName::Backspace => {
            let (st2, evs) = deleted(st, previous_boundary(c), c);
            (st2, evs, None, true)
        },
        KeyName::Delete => {
            let (st2, evs) = deleted(st, c, next_boundary(len, c));
            (st2, evs, None, true)
        },
        KeyName::Left => {
            let offset = if shift || empty { previous_boundary(c) } else { st.start };
            (moved(st, offset, shift), Seq::empty(), None, true)
        },
        KeyName::Right => {
            let offset = if shift || empty { next_boundary(len, c) } else { st.end };
            (moved(st, offset, shift), Seq::empty(), None, true)
        },
        KeyName::Home => (moved(st, line_start(st.content, c), shift), Seq::empty(), None, true),
        KeyName::End => (moved(st, line_end(st.content, c), shift), Seq::empty(), None, true),
        KeyName::Up => (moved(st, vertical, shift), Seq::empty(), None, true),
        KeyName::Down => (moved(st, vertical, shift), Seq::empty(), None, true),
        KeyName::Char(ch) => if !secondary {
            (st, Seq::empty(), None, false)
        } else if ch == 'a' {
            (all_selected(st), Seq::empty(), None, true)
        } else if ch == 'c' {
            (st, Seq::empty(), selection_text(st), true)
        } else if ch == 'x' {
            if st.start < st.end {
                (replaced(st, Seq::empty()), seq![EventView::Changed], selection_text(st), true)
            } else {
                (st, Seq::empty(), None, true)
            }
        } else if ch == 'v' {
            match clipboard {
                Some(t) => (
                    replaced(st, if multiline { unix_breaks(t) } else { without_breaks(t) }),
                    seq![EventView::Changed],
                    None,
                    true,
                ),
                None => (st, Seq::empty(), None, true),
            }
        } else {
            (st, Seq::empty(), None, false)
        },
        KeyName::Other => (st, Seq::empty(), None, false),
    }
}

/// Left and Right without shift: a selection collapses to its start (Left)
/// or its end (Right), whichever end the caret was at; with nothing
/// selected the caret moves one character, stopping at the text's ends.
/// The text is unchanged and the key is used.
pub proof fn arrows_collapse_or_move_the_caret(
    st: FieldState,
    multiline: bool,
    secondary: bool,
    clipboard: Option<Seq<char>>,
    vertical: int,
)
    requires
        field_wf(st),
    ensures
        ({
            let left = key_result(st, multiline, KeyName::Left, false, secondary, clipboard, vertical);
            let right = key_result(st, multiline, KeyName::Right, false, secondary, clipboard, vertical);
            let caret = if st.reversed { st.start } else { st.end };
            &&& left.0.content == st.content && right.0.content == st.content
            &&& left.3 && right.3
            &&& left.0.start == left.0.end && right.0.start == right.0.end
            &&& st.start < st.end ==> left.0.start == st.start && right.0.start == st.end
            &&& st.start == st.end ==> left.0.start == (if caret > 0 { caret - 1 } else { 0 })
            &&& st.start == st.end ==> right.0.start == (if caret < st.content.len() { caret + 1 } else { st.content.len() as int })
        }),
{
}

/// Left and Right with shift keep the selection's fixed end and move the
/// caret one character, the selection spanning from the fixed end to it.
pub proof fn shifted_arrows_stretch_the_selection(
    st: FieldState,
    multiline: bool,
    secondary: bool,
    clipboard: Option<Seq<char>>,
    vertical: int,
)
    requires
        field_wf(st),
    ensures
        ({
            let left = key_result(st, multiline, KeyName::Left, true, secondary, clipboard, vertical).0;
            let right = key_result(st, multiline, KeyName::Right, true, secondary, clipboard, vertical).0;
            let caret = if st.reversed { st.start } else { st.end };
            let anchor = if st.reversed { st.end } else { st.start };
            let l = if caret > 0 { caret - 1 } else { 0 };
            let r = if caret < st.content.len() { caret + 1 } else { st.content.len() as int };
            &&& left.content == st.content && right.content == st.content
            &&& left.start == (if anchor <= l { anchor } else { l }) && left.end == (if anchor <= l { l } else { anchor })
            &&& (if left.reversed { left.start } else { left.end }) == l
            &&& right.start == (if anchor <= r { anchor } else { r }) && right.end == (if anchor <= r { r } else { anchor })
            &&& (if right.reversed { right.start } else { right.end }) == r
        }),
{
}

/// Backspace and Delete remove the selection when there is one, otherwise
/// the character before (Backspace) or after (Delete) the caret; the caret
/// ends where the removed text began.
pub proof fn deletion_keys_remove_the_selection_or_one_character(
    st: FieldState,
    multiline: bool,
    secondary: bool,
    clipboard: Option<Seq<char>>,
    vertical: int,
)
    requires
        field_wf(st),
    ensures
        ({
            let back = key_result(st, multiline, KeyName::Backspace, false, secondary, clipboard, vertical).0;
            let del = key_result(st, multiline, KeyName::Delete, false, secondary, clipboard, vertical).0;
            let caret = if st.reversed { st.start } else { st.end };
            &&& st.start < st.end ==> back.content == st.content.take(st.start) + st.content.skip(st.end) && back.start
                == st.start && back.end == st.start
            &&& st.start < st.end ==> del.content == st.content.take(st.start) + st.content.skip(st.end) && del.start
                == st.start && del.end == st.start
            &&& st.start == st.end && caret > 0 ==> back.content == st.content.take(caret - 1) + st.content.skip(caret)
                && back.start == caret - 1 && back.end == caret - 1
            &&& st.start == st.end && caret < st.content.len() ==> del.content == st.content.take(caret) + st.content.skip(
                caret + 1,
            ) && del.start == caret && del.end == caret
            &&& st.start == st.end && caret == 0 ==> back.content == st.content
            &&& st.start == st.end && caret == st.content.len() ==> del.content == st.content
        }),
{
}

pub open spec fn opt_text(s: Option<String>) -> Option<Seq<char>> {
    match s {
        Some(t) => Some(t@),
        None => None,
    }
}

impl TextField {
    /// The line start or end for the caret.
    fn line_start_of(&self, c: usize) -> (r: usize)
        requires
            c <= self.content@.len(),
        ensures
            r == line_start(self.content@, c as int),
    {
        let mut k = c;
        while k > 0 && self.content[k - 1] != '\n'
            invariant
                k <= c,
                c <= self.content@.len(),
                line_start(self.content@, c as int) == line_start(self.content@, k as int),
            decreases k,
        {
            k = k - 1;
        }
        k
    }

    fn line_end_of(&self, c: usize) -> (r: usize)
        requires
            c <= self.content@.len(),
        ensures
            r == line_end(self.content@, c as int),
    {
        let mut k = c;
        while k < self.content.len() && self.content[k] != '\n'
            invariant
                c <= k <= self.content@.len(),
                line_end(self.content@, c as int) == line_end(self.content@, k as int),
            decreases self.content@.len() - k,
        {
            k = k + 1;
        }
        k
    }

    fn move_or_select(&mut self, offset: usize, shift: bool)
        requires
            old(self).wf(),
            offset <= old(self).content@.len(),
        ensures
            final(self).wf(),
            state_of(*final(self)) == moved(state_of(*old(self)), offset as int, shift),
            final(self).multiline == old(self).multiline,
    {
        if shift {
            self.select_to(offset);
        } else {
            self.move_to(offset);
        }
    }

    fn delete_range(&mut self, from: usize, to: usize) -> (events: Vec<InputEvent>)
        requires
            old(self).wf(),
            from <= to <= old(self).content@.len(),
        ensures
            final(self).wf(),
            (state_of(*final(self)), event_views(events@)) == deleted(state_of(*old(self)), from as int, to as int),
            final(self).multiline == old(self).multiline,
    {
        let mut events: Vec<InputEvent> = Vec::new();
        if self.selected.0 == self.selected.1 {
            self.selected = (from, to);
        }
        if self.selected.0 < self.selected.1 {
            let nothing: Vec<char> = Vec::new();
            events.push(self.replace_selection(&nothing));
            assert(event_views(events@) =~= seq![EventView::Changed]);
        } else {
            assert(event_views(events@) =~= Seq::<EventView>::empty());
        }
        events
    }

    /// Applies a key: see [`key_result`]. `clipboard` is the clipboard's
    /// text, read for a paste; `vertical` is the offset one line above the
    /// caret for `Up` and one line below for `Down`.
    pub fn handle_key_down(
        &mut self,
        key: KeyName,
        shift: bool,
        secondary: bool,
        clipboard: Option<String>,
        vertical: usize,
    ) -> (outcome: KeyOutcome)
        requires
            old(self).wf(),
            (key == KeyName::Up || key == KeyName::Down) ==> vertical <= old(self).content@.len(),
        ensures
            final(self).wf(),
            final(self).multiline == old(self).multiline,
            (state_of(*final(self)), event_views(outcome.events@), opt_text(outcome.copied), outcome.handled)
                == key_result(
                state_of(*old(self)),
                old(self).multiline,
                key,
                shift,
                secondary,
                opt_text(clipboard),
                vertical as int,
            ),
    {
        let c = self.cursor_offset();
        let len = self.content.len();
        let empty = self.selected.0 == self.selected.1;
        let mut events: Vec<InputEvent> = Vec::new();
        assert(event_views(events@) =~= Seq::<EventView>::empty());
        match key {
            KeyName::Enter => {
                let pattern = trim_chars(&self.content);
                if self.multiline {
                    if secondary {
                        if pattern.len() > 0 {
                            events.push(InputEvent::Submit(string_of(&pattern, 0, pattern.len())));
                            assert(pattern@.subrange(0, pattern@.len() as int) =~= pattern@);
                            assert(event_views(events@) =~= seq![EventView::Submit(pattern@)]);
                        }
                    } else {
                        let mut nl: Vec<char> = Vec::new();
                        nl.push('\n');
                        assert(nl@ =~= seq!['\n']);
                        events.push(self.replace_selection(&nl));
                        assert(event_views(events@) =~= seq![EventView::Changed]);
                    }
                } else if pattern.len() == 0 {
                    events.push(InputEvent::Invalid(EMPTY_PATTERN_MESSAGE.to_string()));
                    assert(event_views(events@) =~= seq![EventView::Invalid(EMPTY_PATTERN_MESSAGE@)]);
                } else {
                    let text = string_of(&pattern, 0, pattern.len());
                    assert(pattern@.subrange(0, pattern@.len() as int) =~= pattern@);
                    match glob_error(text.as_str()) {
                        None => {
                            self.clear();
                            events.push(InputEvent::Submit(text));
                            assert(event_views(events@) =~= seq![EventView::Submit(pattern@)]);
                        },
                        Some(message) => {
                            let ghost mv = message@;
                            events.push(InputEvent::Invalid(message));
                            assert(event_views(events@) =~= seq![EventView::Invalid(mv)]);
                        },
                    }
                }
                KeyOutcome { events, copied: None, handled: true }
            },
            KeyName::Escape => {
                events.push(InputEvent::Dismiss);
                assert(event_views(events@) =~= seq![EventView::Dismiss]);
                KeyOutcome { events, copied: None, handled: true }
            },
            KeyName::Backspace => {
                let from = if c > 0 {
                    c - 1
                } else {
                    0
                };
                let events = self.delete_range(from, c);
                KeyOutcome { events, copied: None, handled: true }
            },
            KeyName::Delete => {
                let to = if c < len && c + 1 < len {
                    c + 1
                } else {
                    len
                };
                let events = self.delete_range(c, to);
                KeyOutcome { events, copied: None, handled: true }
            },
            KeyName::Left => {
                let offset = if shift || empty {
                    if c > 0 {
                        c - 1
                    } else {
                        0
                    }
                } else {
                    self.selected.0
                };
                self.move_or_select(offset, shift);
                KeyOutcome { events, copied: None, handled: true }
            },
            KeyName::Right => {
                let offset = if shift || empty {
                    if c < len && c + 1 < len {
                        c + 1
                    } else {
                        len
                    }
                } else {
                    self.selected.1
                };
                self.move_or_select(offset, shift);
                KeyOutcome { events, copied: None, handled: true }
            },
            KeyName::Home => {
                let offset = self.line_start_of(c);
                proof {
                    lemma_line_start_bound(self.content@, c as int);
                }
                self.move_or_select(offset, shift);
                KeyOutcome { events, copied: None, handled: true }
            },
            KeyName::End => {
                let offset = self.line_end_of(c);
                proof {
                    lemma_line_end_bound(self.content@, c as int);
                }
                self.move_or_select(offset, shift);
                KeyOutcome { events, copied: None, handled: true }
            },
            KeyName::Up => {
                self.move_or_select(vertical, shift);
                KeyOutcome { events, copied: None, handled: true }
            },
            KeyName::Down => {
                self.move_or_select(vertical, shift);
                KeyOutcome { events, copied: None, handled: true }
            },
            KeyName::Char(ch) => {
                if !secondary {
                    KeyOutcome { events, copied: None, handled: false }
                } else if ch == 'a' {
                    self.select_all();
                    KeyOutcome { events, copied: None, handled: true }
                } else if ch == 'c' {
                    let copied = self.selected_text();
                    KeyOutcome { events, copied, handled: true }
                } else if ch == 'x' {
                    let copied = self.selected_text();
                    if self.selected.0 < self.selected.1 {
                        let nothing: Vec<char> = Vec::new();
                        events.push(self.replace_selection(&nothing));
                        assert(event_views(events@) =~= seq![EventView::Changed]);
                    }
                    KeyOutcome { events, copied, handled: true }
                } else if ch == 'v' {
                    match clipboard {
                        Some(t) => {
                            let raw = chars_of(t.as_str());
                            let text = if self.multiline {
                                normalize_breaks(&raw)
                            } else {
                                drop_breaks(&raw)
                            };
                            events.push(self.replace_selection(&text));
                            assert(event_views(events@) =~= seq![EventView::Changed]);
                            KeyOutcome { events, copied: None, handled: true }
                        },
                        None => KeyOutcome { events, copied: None, handled: true },
                    }
                } else {
                    KeyOutcome { events, copied: None, handled: false }
                }
            },
            KeyName::Other => KeyOutcome { events, copied: None, handled: false },
        }
    }
}

/// How many UTF-16 units a character takes.
pub open spec fn utf16_units(c: char) -> int {
    if c >= '\u{10000}' {
        2
    } else {
        1
    }
}

/// How many UTF-16 units the first `n` characters take.
pub open spec fn utf16_prefix(s: Seq<char>, n: int) -> int
    decreases n,
{
    if n <= 0 {
        0
    } else {
        utf16_prefix(s, n - 1) + utf16_units(s[n - 1])
    }
}

/// The character offset of a UTF-16 offset: the fewest characters that
/// take at least `units` units, counted from `k`, or the text's length.
pub open spec fn offset_from_units(s: Seq<char>, units: int, k: int) -> int
    decreases s.len() - k,
{
    if k >= s.len() || utf16_prefix(s, k) >= units {
        if k >= s.len() { s.len() as int } else { k }
    } else {
        offset_from_units(s, units, k + 1)
    }
}

proof fn lemma_prefix_grows(s: Seq<char>, n: int)
    requires
        0 <= n,
    ensures
        n <= utf16_prefix(s, n) <= 2 * n,
    decreases n,
{
    if n > 0 {
        lemma_prefix_grows(s, n - 1);
    }
}

proof fn lemma_offset_from_units_bounds(s: Seq<char>, units: int, k: int)
    requires
        0 <= k <= s.len(),
    ensures
        k <= offset_from_units(s, units, k) <= s.len(),
    decreases s.len() - k,
{
    if k < s.len() && utf16_prefix(s, k) < units {
        lemma_offset_from_units_bounds(s, units, k + 1);
    }
}

/// The state after the input method replaced `range` (or the composed
/// range, or the selection) with `text`: the text composed stays marked,
/// and the selection is `new_selection` within it, else the caret after it.
pub open spec fn marked_replaced(
    st: FieldState,
    range: Option<(int, int)>,
    text: Seq<char>,
    new_selection: Option<(int, int)>,
) -> FieldState {
    let r = match range {
        Some(r) => r,
        None => match st.marked {
            Some(m) => m,
            None => (st.start, st.end),
        },
    };
    FieldState {
        content: st.content.take(r.0) + text + st.content.skip(r.1),
        marked: if text.len() > 0 { Some((r.0, r.0 + text.len())) } else { None },
        start: match new_selection {
            Some(sel) => r.0 + sel.0,
            None => r.0 + text.len(),
        },
        end: match new_selection {
            Some(sel) => r.0 + sel.1,
            None => r.0 + text.len(),
        },
        reversed: st.reversed,
    }
}

impl TextField {
    /// The UTF-16 offset of a character offset.
    pub fn offset_to_utf16(&self, offset: usize) -> (u: usize)
        requires
            offset <= self.content@.len(),
            2 * self.content@.len() <= usize::MAX,
        ensures
            u == utf16_prefix(self.content@, offset as int),
    {
        let mut units: usize = 0;
        let mut k: usize = 0;
        while k < offset
            invariant
                k <= offset <= self.content@.len(),
                2 * self.content@.len() <= usize::MAX,
                units == utf16_prefix(self.content@, k as int),
            decreases offset - k,
        {
            proof {
                lemma_prefix_grows(self.content@, k + 1);
            }
            let c = self.content[k];
            units = units + if c >= '\u{10000}' {
                2
            } else {
                1
            };
            k = k + 1;
        }
        units
    }

    /// The character offset of a UTF-16 offset, at most the text's length.
    pub fn offset_from_utf16(&self, units: usize) -> (offset: usize)
        requires
            2 * self.content@.len() <= usize::MAX,
        ensures
            offset == offset_from_units(self.content@, units as int, 0),
    {
        let mut count: usize = 0;
        let mut k: usize = 0;
        while k < self.content.len() && count < units
            invariant
                k <= self.content@.len(),
                2 * self.content@.len() <= usize::MAX,
                count == utf16_prefix(self.content@, k as int),
                offset_from_units(self.content@, units as int, 0) == offset_from_units(self.content@, units as int, k as int),
            decreases self.content@.len() - k,
        {
            proof {
                lemma_prefix_grows(self.content@, k + 1);
            }
            let c = self.content[k];
            count = count + if c >= '\u{10000}' {
                2
            } else {
                1
            };
            k = k + 1;
        }
        k
    }

    /// The text of a range.
    pub fn text_for_range(&self, start: usize, end: usize) -> (t: String)
        requires
            start <= end <= self.content@.len(),
        ensures
            t@ == self.content@.subrange(start as int, end as int),
    {
        string_of(&self.content, start, end)
    }

    /// Forgets the composed range.
    pub fn unmark_text(&mut self)
        requires
            old(self).wf(),
        ensures
            final(self).wf(),
            state_of(*final(self)) == (FieldState { marked: None, ..state_of(*old(self)) }),
            final(self).multiline == old(self).multiline,
    {
        self.marked = None;
    }

    /// The input method's text replaces `range`, or the composed range, or
    /// the selection.
    pub fn replace_text_in_range(&mut self, range: Option<(usize, usize)>, text: &str) -> (e: InputEvent)
        requires
            old(self).wf(),
            range matches Some(r) ==> r.0 <= r.1 <= old(self).content@.len(),
        ensures
            final(self).wf(),
            state_of(*final(self)) == replaced(
                FieldState {
                    start: match range {
                        Some(r) => r.0 as int,
                        None => match old(self).marked {
                            Some(m) => m.0 as int,
                            None => old(self).selected.0 as int,
                        },
                    },
                    end: match range {
                        Some(r) => r.1 as int,
                        None => match old(self).marked {
                            Some(m) => m.1 as int,
                            None => old(self).selected.1 as int,
                        },
                    },
                    marked: match range {
                        Some(_) => marked_view(old(self).marked),
                        None => None,
                    },
                    ..state_of(*old(self))
                },
                text@,
            ),
            event_view(e) == EventView::Changed,
            final(self).multiline == old(self).multiline,
    {
        match range {
            Some(r) => {
                self.selected = r;
            },
            None => match self.marked {
                Some(m) => {
                    self.selected = m;
                    self.marked = None;
                },
                None => {},
            },
        }
        let chars = chars_of(text);
        self.replace_selection(&chars)
    }

    /// The input method replaces `range` (or the composed range, or the
    /// selection) with `text` and keeps composing it: see
    /// [`marked_replaced`]. `new_selection` is relative to `text`.
    pub fn replace_and_mark_text_in_range(
        &mut self,
        range: Option<(usize, usize)>,
        text: &str,
        new_selection: Option<(usize, usize)>,
    ) -> (e: InputEvent)
        requires
            old(self).wf(),
            range matches Some(r) ==> r.0 <= r.1 <= old(self).content@.len(),
            new_selection matches Some(sel) ==> sel.0 <= sel.1 <= text@.len(),
        ensures
            final(self).wf(),
            state_of(*final(self)) == marked_replaced(
                state_of(*old(self)),
                match range {
                    Some(r) => Some((r.0 as int, r.1 as int)),
                    None => None,
                },
                text@,
                match new_selection {
                    Some(sel) => Some((sel.0 as int, sel.1 as int)),
                    None => None,
                },
            ),
            event_view(e) == EventView::Changed,
            final(self).multiline == old(self).multiline,
    {
        let (start, end) = match range {
            Some(r) => r,
            None => match self.marked {
                Some(m) => m,
                None => self.selected,
            },
        };
        let chars = chars_of(text);
        let reversed = self.reversed;
        self.selected = (start, end);
        self.replace_selection(&chars);
        let text_len = chars.len();
        self.reversed = reversed;
        self.marked = if text_len > 0 {
            Some((start, start + text_len))
        } else {
            None
        };
        match new_selection {
            Some(sel) => {
                self.selected = (start + sel.0, start + sel.1);
            },
            None => {},
        }
        InputEvent::Changed
    }
}
} // verus!
