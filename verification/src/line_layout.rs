//! Row layout for the terminal diff view: wrapping a row at whitespace with
//! its continuation rows aligned under the content, tab expansion, and
//! padding a row's background out to the full width.
//!
//! Styled text is modelled by the plain types below: a `Span` is a string
//! drawn in one `Style`, a `Line` is one row of spans.
use vstd::prelude::*;
use vstd::string::StringExecFns;
use crate::text::{chars_of, push_char};
use crate::text_edit::{char_is_whitespace, is_whitespace};

verus! {

/// A terminal colour: the terminal's default, the sixteen named colours, a
/// true colour or an entry of the indexed palette.
#[derive(Clone, Copy, PartialEq, Eq, Debug, Structural)]
pub enum Color {
    Reset,
    Black,
    Red,
    Green,
    Yellow,
    Blue,
    Magenta,
    Cyan,
    Gray,
    DarkGray,
    LightRed,
    LightGreen,
    LightYellow,
    LightBlue,
    LightMagenta,
    LightCyan,
    White,
    Rgb(u8, u8, u8),
    Indexed(u8),
}

/// How a run of text is drawn: its foreground and background colours (left
/// to the terminal where `None`) and the modifier bits it adds and removes.
#[derive(Clone, Copy, PartialEq, Eq, Debug, Structural)]
pub struct Style {
    pub fg: Option<Color>,
    pub bg: Option<Color>,
    pub add_modifier: u16,
    pub sub_modifier: u16,
}

/// The style that sets nothing.
pub open spec fn plain_style() -> Style {
    Style { fg: None, bg: None, add_modifier: 0, sub_modifier: 0 }
}

/// The style that sets only the background.
pub open spec fn background_style(background: Color) -> Style {
    Style { fg: None, bg: Some(background), add_modifier: 0, sub_modifier: 0 }
}

impl Default for Style {
    fn default() -> (s: Style)
        ensures
            s == plain_style(),
    {
        Style { fg: None, bg: None, add_modifier: 0, sub_modifier: 0 }
    }
}

impl Style {
    /// The style that sets only the background to `background`.
    pub fn on(background: Color) -> (s: Style)
        ensures
            s == background_style(background),
    {
        Style { fg: None, bg: Some(background), add_modifier: 0, sub_modifier: 0 }
    }
}

/// A span as the contracts see it: its characters and its style.
pub type SpanView = (Seq<char>, Style);

/// A run of text drawn in one style.
#[derive(Debug)]
pub struct Span {
    pub content: String,
    pub style: Style,
}

impl View for Span {
    type V = SpanView;

    open spec fn view(&self) -> SpanView {
        (self.content@, self.style)
    }
}

impl DeepView for Span {
    type V = SpanView;

    open spec fn deep_view(&self) -> SpanView {
        (self.content@, self.style)
    }
}

impl Span {
    /// Unstyled text.
    pub fn raw(content: &str) -> (s: Span)
        ensures
            s@ == (content@, plain_style()),
    {
        Span { content: content.to_owned(), style: Style { fg: None, bg: None, add_modifier: 0, sub_modifier: 0 } }
    }

    /// Text drawn in `style`.
    pub fn styled(content: String, style: Style) -> (s: Span)
        ensures
            s@ == (content@, style),
    {
        Span { content, style }
    }

    /// A copy of this span.
    pub fn copy(&self) -> (s: Span)
        ensures
            s@ == self@,
            s.deep_view() == self.deep_view(),
    {
        Span { content: self.content.clone(), style: self.style }
    }
}

/// One row on screen: its spans from left to right.
#[derive(Debug)]
pub struct Line {
    pub spans: Vec<Span>,
}

impl DeepView for Line {
    type V = Seq<SpanView>;

    open spec fn deep_view(&self) -> Seq<SpanView> {
        self.spans.deep_view()
    }
}

/// `n` blanks.
pub open spec fn spaces(n: nat) -> Seq<char> {
    Seq::new(n, |_i: int| ' ')
}

/// The number of characters over all spans: the width they take on screen.
pub open spec fn width(spans: Seq<SpanView>) -> nat
    decreases spans.len(),
{
    if spans.len() == 0 {
        0
    } else {
        width(spans.drop_last()) + spans.last().0.len()
    }
}

/// `spans` followed, where they are narrower than `target`, by the blanks
/// that fill the row out to `target` in the background colour.
pub open spec fn padded(spans: Seq<SpanView>, target: nat, background: Color) -> Seq<SpanView> {
    if width(spans) < target {
        spans.push((spaces((target - width(spans)) as nat), background_style(background)))
    } else {
        spans
    }
}

/// The width of a concatenation is the sum of the widths.
pub proof fn lemma_width_concat(a: Seq<SpanView>, b: Seq<SpanView>)
    ensures
        width(a + b) == width(a) + width(b),
    decreases b.len(),
{
    if b.len() == 0 {
        assert(a + b =~= a);
    } else {
        lemma_width_concat(a, b.drop_last());
        assert((a + b).drop_last() =~= a + b.drop_last());
    }
}

/// A prefix of the spans is no wider than all of them.
proof fn lemma_width_prefix(spans: Seq<SpanView>, i: int)
    requires
        0 <= i <= spans.len(),
    ensures
        width(spans.take(i)) <= width(spans),
    decreases spans.len() - i,
{
    if i < spans.len() {
        lemma_width_prefix(spans, i + 1);
        assert(spans.take(i + 1).drop_last() =~= spans.take(i));
    } else {
        assert(spans.take(i) =~= spans);
    }
}

/// A string of `n` blanks.
fn blanks(n: usize) -> (s: String)
    ensures
        s@ == spaces(n as nat),
{
    let mut s = String::new();
    let mut i: usize = 0;
    while i < n
        invariant
            i <= n,
            s@ == spaces(i as nat),
        decreases n - i,
    {
        push_char(&mut s, ' ');
        i = i + 1;
        assert(s@ =~= spaces(i as nat));
    }
    s
}

/// The number of characters of a string.
fn char_count(s: &String) -> (n: usize)
    ensures
        n == s@.len(),
{
    chars_of(s.as_str()).len()
}

/// The width of the spans on screen.
fn span_width(spans: &Vec<Span>) -> (w: usize)
    requires
        width(spans.deep_view()) <= usize::MAX,
    ensures
        w == width(spans.deep_view()),
{
    let mut w: usize = 0;
    let mut i: usize = 0;
    while i < spans.len()
        invariant
            i <= spans.len(),
            width(spans.deep_view()) <= usize::MAX,
            w == width(spans.deep_view().take(i as int)),
        decreases spans.len() - i,
    {
        proof {
            lemma_width_prefix(spans.deep_view(), i + 1);
            assert(spans.deep_view().take(i + 1).drop_last() =~= spans.deep_view().take(i as int));
        }
        w = w + char_count(&spans[i].content);
        i = i + 1;
    }
    assert(spans.deep_view().take(i as int) =~= spans.deep_view());
    w
}

/// Extends a row's background to `target_width` characters: where the
/// spans are narrower, one span of blanks in the background colour follows.
pub fn pad_background(spans: Vec<Span>, target_width: usize, background: Color) -> (r: Vec<Span>)
    requires
        width(spans.deep_view()) <= usize::MAX,
    ensures
        r.deep_view() == padded(spans.deep_view(), target_width as nat, background),
{
    let mut spans = spans;
    let current = span_width(&spans);
    if current < target_width {
        let fill = Span { content: blanks(target_width - current), style: Style::on(background) };
        spans.push(fill);
    }
    spans
}

/// A row of `width` blanks in the background colour.
pub fn blank_line(width: usize, background: Color) -> (line: Line)
    ensures
        line.deep_view() == seq![(spaces(width as nat), background_style(background))],
{
    let mut spans: Vec<Span> = Vec::new();
    spans.push(Span { content: blanks(width), style: Style::on(background) });
    let line = Line { spans };
    assert(line.deep_view() =~= seq![(spaces(width as nat), background_style(background))]);
    line
}

/// The diagonal stripes that fill an empty placeholder row of `width`
/// characters.
pub fn stripe_pattern(width: usize) -> (s: String)
    ensures
        s@ == Seq::new(width as nat, |_i: int| '╱'),
{
    let mut s = String::new();
    let mut i: usize = 0;
    while i < width
        invariant
            i <= width,
            s@ == Seq::new(i as nat, |_i: int| '╱'),
        decreases width - i,
    {
        push_char(&mut s, '╱');
        i = i + 1;
        assert(s@ =~= Seq::new(i as nat, |_i: int| '╱'));
    }
    s
}

/// The characters of the spans in order, each with the style of its span.
pub open spec fn styled(spans: Seq<SpanView>) -> Seq<(char, Style)>
    decreases spans.len(),
{
    if spans.len() == 0 {
        seq![]
    } else {
        styled(spans.drop_last()) + spans.last().0.map_values(|c: char| (c, spans.last().1))
    }
}

/// Each character of the spans with the style it is drawn in.
fn styled_chars(spans: &Vec<Span>) -> (chars: Vec<(char, Style)>)
    ensures
        chars@ == styled(spans.deep_view()),
{
    let mut chars: Vec<(char, Style)> = Vec::new();
    let mut i: usize = 0;
    while i < spans.len()
        invariant
            i <= spans.len(),
            chars@ == styled(spans.deep_view().take(i as int)),
        decreases spans.len() - i,
    {
        let style = spans[i].style;
        let text = chars_of(spans[i].content.as_str());
        let ghost before = chars@;
        let mut j: usize = 0;
        while j < text.len()
            invariant
                j <= text.len(),
                chars@ == before + text@.take(j as int).map_values(|c: char| (c, style)),
            decreases text.len() - j,
        {
            chars.push((text[j], style));
            j = j + 1;
            assert(text@.take(j as int).map_values(|c: char| (c, style)) =~= text@.take(
                j - 1,
            ).map_values(|c: char| (c, style)).push((text@[j - 1], style)));
        }
        proof {
            assert(text@.take(j as int) =~= text@);
            assert(spans.deep_view().take(i + 1).drop_last() =~= spans.deep_view().take(i as int));
        }
        i = i + 1;
    }
    assert(spans.deep_view().take(i as int) =~= spans.deep_view());
    chars
}

/// The characters grouped into spans: each maximal run of neighbours drawn
/// in the same style becomes one span.
pub open spec fn runs(chars: Seq<(char, Style)>) -> Seq<SpanView>
    decreases chars.len(),
{
    if chars.len() == 0 {
        seq![]
    } else {
        let r = runs(chars.drop_last());
        let c = chars.last();
        if r.len() > 0 && r.last().1 == c.1 {
            r.update(r.len() - 1, (r.last().0.push(c.0), c.1))
        } else {
            r.push((seq![c.0], c.1))
        }
    }
}

/// The characters `from..to` as spans, one per run of equal style.
fn chars_to_spans(chars: &Vec<(char, Style)>, from: usize, to: usize) -> (spans: Vec<Span>)
    requires
        from <= to <= chars.len(),
    ensures
        spans.deep_view() == runs(chars@.subrange(from as int, to as int)),
{
    let mut spans: Vec<Span> = Vec::new();
    if from == to {
        assert(chars@.subrange(from as int, to as int).len() == 0);
        assert(spans.deep_view() =~= Seq::<SpanView>::empty());
        return spans;
    }
    let mut style = chars[from].1;
    let mut text = String::new();
    push_char(&mut text, chars[from].0);
    proof {
        let s = chars@.subrange(from as int, from + 1);
        assert(s.drop_last() =~= Seq::<(char, Style)>::empty());
        assert(runs(s.drop_last()) =~= Seq::<SpanView>::empty());
        assert(s.last() == chars@[from as int]);
        assert(text@ =~= seq![chars@[from as int].0]);
        assert(runs(s) =~= seq![(text@, style)]);
    }
    let mut i: usize = from + 1;
    while i < to
        invariant
            from < i <= to <= chars.len(),
            spans.deep_view().push((text@, style)) == runs(chars@.subrange(from as int, i as int)),
        decreases to - i,
    {
        let (character, next_style) = chars[i];
        let ghost before = chars@.subrange(from as int, i as int);
        proof {
            assert(chars@.subrange(from as int, i + 1).drop_last() =~= before);
        }
        if next_style == style {
            push_char(&mut text, character);
            proof {
                let r = runs(before);
                assert(spans.deep_view().push((text@, style)) =~= r.update(
                    r.len() - 1,
                    (r.last().0.push(character), style),
                ));
            }
        } else {
            let done = Span { content: text, style };
            spans.push(done);
            text = String::new();
            push_char(&mut text, character);
            style = next_style;
            proof {
                let r = runs(before);
                assert(text@ =~= seq![character]);
                assert(spans.deep_view().push((text@, style)) =~= r.push((seq![character], next_style)));
            }
        }
        i = i + 1;
    }
    spans.push(Span { content: text, style });
    spans
}

/// The largest index `b` with `1 <= b <= hi` at which a whitespace
/// character stands, or 0 where there is none.
pub open spec fn last_space(chars: Seq<(char, Style)>, hi: int) -> int
    decreases hi,
{
    if hi < 1 {
        0
    } else if is_whitespace(chars[hi].0) {
        hi
    } else {
        last_space(chars, hi - 1)
    }
}

/// The first index at or after `from` that holds no whitespace, or the
/// length where there is none.
pub open spec fn word_start(chars: Seq<(char, Style)>, from: int) -> int
    decreases chars.len() - from,
{
    if from >= chars.len() {
        chars.len() as int
    } else if !is_whitespace(chars[from].0) {
        from
    } else {
        word_start(chars, from + 1)
    }
}

/// Where a row of at most `max` characters ends in `chars` (how many it
/// takes) and where the next row starts. A row that fits is taken whole;
/// otherwise it ends before the last whitespace among the first `max` + 1
/// characters (not the first one) and the next row starts at the following
/// word; with no such whitespace the row is cut at `max`.
pub open spec fn break_point(chars: Seq<(char, Style)>, max: nat) -> (nat, nat) {
    if chars.len() <= max {
        (chars.len(), chars.len())
    } else if last_space(chars, max as int) >= 1 {
        let b = last_space(chars, max as int);
        (b as nat, word_start(chars, b) as nat)
    } else {
        (max, max)
    }
}

proof fn lemma_last_space_bounds(chars: Seq<(char, Style)>, hi: int)
    ensures
        0 <= last_space(chars, hi),
        hi >= 1 ==> last_space(chars, hi) <= hi,
        last_space(chars, hi) >= 1 ==> is_whitespace(chars[last_space(chars, hi)].0),
    decreases hi,
{
    if hi >= 1 && !is_whitespace(chars[hi].0) {
        lemma_last_space_bounds(chars, hi - 1);
    }
}

proof fn lemma_word_start_bounds(chars: Seq<(char, Style)>, from: int)
    requires
        0 <= from,
    ensures
        from <= word_start(chars, from) || from > chars.len(),
        word_start(chars, from) <= chars.len(),
    decreases chars.len() - from,
{
    if from < chars.len() && is_whitespace(chars[from].0) {
        lemma_word_start_bounds(chars, from + 1);
    }
}

/// A break leaves a nonempty rest: the next row starts after the first
/// character and no later than the end.
proof fn lemma_break_point_bounds(chars: Seq<(char, Style)>, max: nat)
    requires
        max >= 1,
        chars.len() >= 1,
    ensures
        1 <= break_point(chars, max).1 <= chars.len(),
        break_point(chars, max).0 <= break_point(chars, max).1,
        break_point(chars, max).0 <= max,
{
    lemma_last_space_bounds(chars, max as int);
    if chars.len() > max {
        let b = last_space(chars, max as int);
        if b >= 1 {
            lemma_word_start_bounds(chars, b);
        }
    }
}

/// Where the row that starts at `from` ends and where the next one starts,
/// both counted from `from`.
fn wrap_break(chars: &Vec<(char, Style)>, from: usize, max_width: usize) -> (r: (usize, usize))
    requires
        from <= chars.len(),
        max_width >= 1,
    ensures
        r.0 == break_point(chars@.skip(from as int), max_width as nat).0,
        r.1 == break_point(chars@.skip(from as int), max_width as nat).1,
{
    let ghost s = chars@.skip(from as int);
    let n = chars.len() - from;
    if n <= max_width {
        return (n, n);
    }
    let mut b = max_width;
    while b >= 1 && !char_is_whitespace(chars[from + b].0)
        invariant
            from + max_width < chars.len(),
            s == chars@.skip(from as int),
            b <= max_width,
            last_space(s, max_width as int) == last_space(s, b as int),
        decreases b,
    {
        b = b - 1;
    }
    if b >= 1 {
        let mut j = b;
        while j < n && char_is_whitespace(chars[from + j].0)
            invariant
                n == s.len(),
                s == chars@.skip(from as int),
                from + n == chars.len(),
                b <= j <= n,
                word_start(s, b as int) == word_start(s, j as int),
            decreases n - j,
        {
            j = j + 1;
        }
        (b, j)
    } else {
        (max_width, max_width)
    }
}

/// Each nonempty span of the prefix as blanks of the same width and style:
/// what stands under the prefix on a continuation row.
pub open spec fn blanked(prefix: Seq<SpanView>) -> Seq<SpanView>
    decreases prefix.len(),
{
    if prefix.len() == 0 {
        seq![]
    } else {
        let r = blanked(prefix.drop_last());
        let last = prefix.last();
        if last.0.len() > 0 {
            r.push((spaces(last.0.len()), last.1))
        } else {
            r
        }
    }
}

/// The number of blanks (`' '`) the characters start with.
pub open spec fn leading_spaces(chars: Seq<(char, Style)>) -> nat
    decreases chars.len(),
{
    if chars.len() > 0 && chars[0].0 == ' ' {
        1 + leading_spaces(chars.drop_first())
    } else {
        0
    }
}

/// `a - b`, or 0 where `b` is larger.
pub open spec fn sat_sub(a: nat, b: nat) -> nat {
    if a >= b {
        (a - b) as nat
    } else {
        0
    }
}

/// `a`, but at least 1.
pub open spec fn at_least_one(a: nat) -> nat {
    if a >= 1 {
        a
    } else {
        1
    }
}

/// How many characters of content fit on a row of `target` characters
/// after a prefix of `prefix_width`, keeping the last column free; at least
/// one.
pub open spec fn content_width(prefix_width: nat, target: nat) -> nat {
    at_least_one(sat_sub(sat_sub(target, prefix_width), 1))
}

/// How far continuation rows are indented: as far as the content's own
/// leading blanks, but leaving at least one column of content.
pub open spec fn indent_of(chars: Seq<(char, Style)>, content_width: nat) -> nat {
    let lead = leading_spaces(chars);
    let limit = sat_sub(content_width, 1);
    if lead <= limit {
        lead
    } else {
        limit
    }
}

/// What a row shows before its content: the prefix on the first row; on
/// the others the blanked prefix and then the indent in the background
/// colour.
pub open spec fn row_lead(
    first: bool,
    indent: nat,
    prefix: Seq<SpanView>,
    blank: Seq<SpanView>,
    background: Color,
) -> Seq<SpanView> {
    if first {
        prefix
    } else if indent > 0 {
        blank.push((spaces(indent), background_style(background)))
    } else {
        blank
    }
}

/// How many characters of content a row holds: all of the content width on
/// the first row, what the indent leaves (at least one) on the others.
pub open spec fn row_width(first: bool, content_width: nat, indent: nat) -> nat {
    if first {
        content_width
    } else {
        at_least_one(sat_sub(content_width, indent))
    }
}

/// A break never starts the next row past the end.
pub proof fn lemma_break_point_end(chars: Seq<(char, Style)>, max: nat)
    ensures
        break_point(chars, max).1 <= chars.len(),
{
    lemma_last_space_bounds(chars, max as int);
    if chars.len() > max {
        let b = last_space(chars, max as int);
        if b >= 1 {
            lemma_word_start_bounds(chars, b);
        }
    }
}

/// The rows that the characters `rest` fill, each padded to `target`.
pub open spec fn rows(
    rest: Seq<(char, Style)>,
    first: bool,
    content_width: nat,
    indent: nat,
    prefix: Seq<SpanView>,
    blank: Seq<SpanView>,
    target: nat,
    background: Color,
) -> Seq<Seq<SpanView>>
    decreases rest.len(),
{
    if rest.len() == 0 {
        seq![]
    } else {
        let bp = break_point(rest, row_width(first, content_width, indent));
        let line = padded(
            row_lead(first, indent, prefix, blank, background) + runs(rest.take(bp.0 as int)),
            target,
            background,
        );
        if bp.1 == 0 {
            seq![line]
        } else {
            proof {
                lemma_break_point_end(rest, row_width(first, content_width, indent));
            }
            seq![line] + rows(
                rest.skip(bp.1 as int),
                false,
                content_width,
                indent,
                prefix,
                blank,
                target,
                background,
            )
        }
    }
}

/// The rows of a diff line with the given prefix (line numbers and marker)
/// and content, `target` characters wide. Without wrapping it is one row.
/// With wrapping, the content is broken at whitespace into rows that fit,
/// the first after the prefix, the others after the blanked prefix and the
/// content's own indent; empty content gives the prefix alone.
pub open spec fn wrapped(
    prefix: Seq<SpanView>,
    content: Seq<SpanView>,
    target: nat,
    background: Color,
    wrap: bool,
) -> Seq<Seq<SpanView>> {
    if !wrap {
        seq![padded(prefix + content, target, background)]
    } else if styled(content).len() == 0 {
        seq![padded(prefix, target, background)]
    } else {
        let chars = styled(content);
        let cw = content_width(width(prefix), target);
        rows(chars, true, cw, indent_of(chars, cw), prefix, blanked(prefix), target, background)
    }
}

/// As many styled characters as the spans are wide.
proof fn lemma_styled_len(spans: Seq<SpanView>)
    ensures
        styled(spans).len() == width(spans),
    decreases spans.len(),
{
    if spans.len() > 0 {
        lemma_styled_len(spans.drop_last());
    }
}

/// Grouping characters into runs keeps their number.
proof fn lemma_width_runs(chars: Seq<(char, Style)>)
    ensures
        width(runs(chars)) == chars.len(),
    decreases chars.len(),
{
    if chars.len() > 0 {
        lemma_width_runs(chars.drop_last());
        let r = runs(chars.drop_last());
        let c = chars.last();
        if r.len() > 0 && r.last().1 == c.1 {
            let u = r.update(r.len() - 1, (r.last().0.push(c.0), c.1));
            assert(u.drop_last() =~= r.drop_last());
        } else {
            assert(r.push((seq![c.0], c.1)).drop_last() =~= r);
        }
    }
}

/// Blanking a prefix keeps its width.
proof fn lemma_width_blanked(prefix: Seq<SpanView>)
    ensures
        width(blanked(prefix)) == width(prefix),
    decreases prefix.len(),
{
    if prefix.len() > 0 {
        lemma_width_blanked(prefix.drop_last());
        let r = blanked(prefix.drop_last());
        let last = prefix.last();
        if last.0.len() > 0 {
            assert(r.push((spaces(last.0.len()), last.1)).drop_last() =~= r);
        }
    }
}

/// A copy of each span.
fn copy_spans(spans: &Vec<Span>) -> (r: Vec<Span>)
    ensures
        r.deep_view() == spans.deep_view(),
{
    let mut r: Vec<Span> = Vec::new();
    let mut i: usize = 0;
    while i < spans.len()
        invariant
            i <= spans.len(),
            r.deep_view() == spans.deep_view().take(i as int),
        decreases spans.len() - i,
    {
        let ghost before = r.deep_view();
        r.push(spans[i].copy());
        assert(r.deep_view() =~= before.push(spans.deep_view()[i as int]));
        i = i + 1;
        assert(r.deep_view() =~= spans.deep_view().take(i as int));
    }
    assert(spans.deep_view().take(i as int) =~= spans.deep_view());
    r
}

/// Moves the spans of `more` onto the end of `spans`.
fn append_spans(spans: &mut Vec<Span>, more: Vec<Span>)
    ensures
        final(spans).deep_view() == old(spans).deep_view() + more.deep_view(),
{
    let mut more = more;
    let ghost tail = more.deep_view();
    spans.append(&mut more);
    assert(spans.deep_view() =~= old(spans).deep_view() + tail);
}

/// The blanked prefix: each nonempty span as blanks in its style.
fn blank_prefix(prefix: &Vec<Span>) -> (r: Vec<Span>)
    ensures
        r.deep_view() == blanked(prefix.deep_view()),
{
    let mut r: Vec<Span> = Vec::new();
    let mut i: usize = 0;
    while i < prefix.len()
        invariant
            i <= prefix.len(),
            r.deep_view() == blanked(prefix.deep_view().take(i as int)),
        decreases prefix.len() - i,
    {
        let n = char_count(&prefix[i].content);
        let ghost before = r.deep_view();
        if n > 0 {
            r.push(Span { content: blanks(n), style: prefix[i].style });
            assert(r.deep_view() =~= before.push((spaces(n as nat), prefix@[i as int].style)));
        }
        assert(prefix.deep_view().take(i + 1).drop_last() =~= prefix.deep_view().take(i as int));
        i = i + 1;
    }
    assert(prefix.deep_view().take(i as int) =~= prefix.deep_view());
    r
}

/// The number of blanks the characters start with.
fn count_leading_spaces(chars: &Vec<(char, Style)>) -> (n: usize)
    ensures
        n == leading_spaces(chars@),
{
    let mut i: usize = 0;
    assert(chars@.skip(0) =~= chars@);
    while i < chars.len() && chars[i].0 == ' '
        invariant
            i <= chars.len(),
            leading_spaces(chars@) == i + leading_spaces(chars@.skip(i as int)),
        decreases chars.len() - i,
    {
        assert(chars@.skip(i as int).drop_first() =~= chars@.skip(i + 1));
        i = i + 1;
    }
    i
}

/// Wraps a diff row at whitespace, aligning continuation rows under the
/// content's own indentation, each row padded to `target_width`.
pub fn wrapped_lines(
    prefix_spans: Vec<Span>,
    content_spans: Vec<Span>,
    target_width: usize,
    background: Color,
    wrap: bool,
) -> (lines: Vec<Line>)
    requires
        width(prefix_spans.deep_view()) + width(content_spans.deep_view()) + target_width
            <= usize::MAX,
    ensures
        lines.deep_view() == wrapped(
            prefix_spans.deep_view(),
            content_spans.deep_view(),
            target_width as nat,
            background,
            wrap,
        ),
{
    let ghost pv = prefix_spans.deep_view();
    let ghost cv = content_spans.deep_view();
    if !wrap {
        let mut spans = prefix_spans;
        append_spans(&mut spans, content_spans);
        proof {
            lemma_width_concat(pv, cv);
        }
        let mut lines: Vec<Line> = Vec::new();
        lines.push(Line { spans: pad_background(spans, target_width, background) });
        assert(lines.deep_view() =~= wrapped(pv, cv, target_width as nat, background, wrap));
        return lines;
    }
    let prefix_width = span_width(&prefix_spans);
    let narrowed = target_width.saturating_sub(prefix_width).saturating_sub(1);
    let content_width = if narrowed >= 1 {
        narrowed
    } else {
        1
    };
    let chars = styled_chars(&content_spans);
    proof {
        lemma_styled_len(cv);
    }
    let blank = blank_prefix(&prefix_spans);
    if chars.len() == 0 {
        let mut lines: Vec<Line> = Vec::new();
        lines.push(Line { spans: pad_background(prefix_spans, target_width, background) });
        assert(lines.deep_view() =~= wrapped(pv, cv, target_width as nat, background, wrap));
        return lines;
    }
    let lead = count_leading_spaces(&chars);
    let indent = if lead <= content_width - 1 {
        lead
    } else {
        content_width - 1
    };
    let ghost cw = content_width as nat;
    let ghost bv = blank.deep_view();
    let ghost total = rows(chars@, true, cw, indent as nat, pv, bv, target_width as nat, background);
    proof {
        lemma_width_blanked(pv);
        assert(chars@.skip(0) =~= chars@);
    }
    let mut lines: Vec<Line> = Vec::new();
    let mut start: usize = 0;
    let mut first = true;
    while start < chars.len()
        invariant_except_break
            start <= chars.len(),
            chars@ == styled(cv),
            chars.len() == width(cv),
            width(pv) == prefix_width,
            width(bv) == prefix_width,
            prefix_spans.deep_view() == pv,
            blank.deep_view() == bv,
            content_width == cw,
            cw == self::content_width(prefix_width as nat, target_width as nat),
            indent < content_width,
            prefix_width + width(cv) + target_width <= usize::MAX,
            chars.len() >= 1,
            first ==> start == 0,
            lines.deep_view() + rows(
                chars@.skip(start as int),
                first,
                cw,
                indent as nat,
                pv,
                bv,
                target_width as nat,
                background,
            ) == total,
        ensures
            lines.deep_view() == total,
        decreases chars.len() - start,
    {
        let available = if first {
            content_width
        } else {
            let left = content_width - indent;
            if left >= 1 {
                left
            } else {
                1
            }
        };
        let ghost rest = chars@.skip(start as int);
        let (take, next) = wrap_break(&chars, start, available);
        proof {
            lemma_break_point_bounds(rest, available as nat);
            assert(rest.take(take as int) =~= chars@.subrange(start as int, start + take));
        }
        let mut spans = if first {
            copy_spans(&prefix_spans)
        } else {
            copy_spans(&blank)
        };
        if !first && indent > 0 {
            spans.push(Span { content: blanks(indent), style: Style::on(background) });
        }
        let ghost lead_view = spans.deep_view();
        proof {
            assert(lead_view =~= row_lead(first, indent as nat, pv, bv, background));
            if !first && indent > 0 {
                assert(lead_view.drop_last() =~= bv);
            }
        }
        let body = chars_to_spans(&chars, start, start + take);
        append_spans(&mut spans, body);
        proof {
            lemma_width_concat(lead_view, runs(rest.take(take as int)));
            lemma_width_runs(rest.take(take as int));
        }
        let row = Line { spans: pad_background(spans, target_width, background) };
        lines.push(row);
        let ghost line_view = padded(
            row_lead(first, indent as nat, pv, bv, background) + runs(rest.take(take as int)),
            target_width as nat,
            background,
        );
        if next == 0 {
            proof {
                assert(lines.deep_view() =~= total);
            }
            break;
        }
        proof {
            assert(rest.skip(next as int) =~= chars@.skip(start + next));
            let later = rows(
                chars@.skip(start + next),
                false,
                cw,
                indent as nat,
                pv,
                bv,
                target_width as nat,
                background,
            );
            assert(lines.deep_view() + later =~= total);
        }
        start = start + next;
        first = false;
    }
    lines
}

/// Appends the rows of a wrapped diff line to `lines`.
pub fn push_wrapped_line(
    lines: &mut Vec<Line>,
    prefix_spans: Vec<Span>,
    content_spans: Vec<Span>,
    target_width: usize,
    background: Color,
    wrap: bool,
)
    requires
        width(prefix_spans.deep_view()) + width(content_spans.deep_view()) + target_width
            <= usize::MAX,
    ensures
        final(lines).deep_view() == old(lines).deep_view() + wrapped(
            prefix_spans.deep_view(),
            content_spans.deep_view(),
            target_width as nat,
            background,
            wrap,
        ),
{
    let mut more = wrapped_lines(prefix_spans, content_spans, target_width, background, wrap);
    let ghost tail = more.deep_view();
    lines.append(&mut more);
    assert(lines.deep_view() =~= old(lines).deep_view() + tail);
}

/// How many blanks a tab at `column` stands for: up to the next multiple of
/// `tab_width`, or none where the tab width is 0.
pub open spec fn tab_stop(column: nat, tab_width: nat) -> nat {
    if tab_width == 0 {
        0
    } else {
        (tab_width - column % tab_width) as nat
    }
}

/// `text`, starting at screen column `column`, with each tab replaced by
/// the blanks up to the next tab stop; and the column after it.
pub open spec fn expand_text(text: Seq<char>, tab_width: nat, column: nat) -> (Seq<char>, nat)
    decreases text.len(),
{
    if text.len() == 0 {
        (seq![], column)
    } else {
        let front = expand_text(text.drop_last(), tab_width, column);
        if text.last() == '\t' {
            let n = tab_stop(front.1, tab_width);
            (front.0 + spaces(n), front.1 + n)
        } else {
            (front.0.push(text.last()), front.1 + 1)
        }
    }
}

/// The spans with their tabs expanded, columns counted from the start of
/// the first span across all of them; spans without a tab are kept as they
/// are. Also the column after the last span.
pub open spec fn expanded(spans: Seq<SpanView>, tab_width: nat) -> (Seq<SpanView>, nat)
    decreases spans.len(),
{
    if spans.len() == 0 {
        (seq![], 0)
    } else {
        let front = expanded(spans.drop_last(), tab_width);
        let last = spans.last();
        if !last.0.contains('\t') {
            (front.0.push(last), front.1 + last.0.len())
        } else {
            let e = expand_text(last.0, tab_width, front.1);
            (front.0.push((e.0, last.1)), e.1)
        }
    }
}

/// Expanding more of a text never ends at an earlier column.
proof fn lemma_expand_text_prefix(text: Seq<char>, tab_width: nat, column: nat, j: int)
    requires
        0 <= j <= text.len(),
    ensures
        column <= expand_text(text.take(j), tab_width, column).1 <= expand_text(text, tab_width, column).1,
    decreases text.len(),
{
    if j == text.len() {
        assert(text.take(j) =~= text);
        if text.len() > 0 {
            lemma_expand_text_prefix(text.drop_last(), tab_width, column, text.len() - 1);
            assert(text.drop_last().take(text.len() - 1) =~= text.drop_last());
        }
    } else {
        lemma_expand_text_prefix(text.drop_last(), tab_width, column, j);
        assert(text.drop_last().take(j) =~= text.take(j));
        lemma_expand_text_prefix(text.drop_last(), tab_width, column, text.len() - 1);
        assert(text.drop_last().take(text.len() - 1) =~= text.drop_last());
    }
}

/// Expanding more of the spans never ends at an earlier column.
proof fn lemma_expanded_prefix(spans: Seq<SpanView>, tab_width: nat, i: int)
    requires
        0 <= i <= spans.len(),
    ensures
        expanded(spans.take(i), tab_width).1 <= expanded(spans, tab_width).1,
    decreases spans.len(),
{
    if i == spans.len() {
        assert(spans.take(i) =~= spans);
    } else {
        lemma_expanded_prefix(spans.drop_last(), tab_width, i);
        assert(spans.drop_last().take(i) =~= spans.take(i));
        let front = expanded(spans.drop_last(), tab_width);
        let last = spans.last();
        if last.0.contains('\t') {
            lemma_expand_text_prefix(last.0, tab_width, front.1, last.0.len() as int);
        }
    }
}

/// Whether the characters hold a tab.
fn has_tab(text: &Vec<char>) -> (b: bool)
    ensures
        b == text@.contains('\t'),
{
    let mut i: usize = 0;
    while i < text.len()
        invariant
            i <= text.len(),
            forall|k: int| 0 <= k < i ==> text@[k] != '\t',
        decreases text.len() - i,
    {
        if text[i] == '\t' {
            assert(text@[i as int] == '\t');
            return true;
        }
        i = i + 1;
    }
    false
}

/// Replaces each tab with the blanks up to the next multiple of
/// `tab_width` columns (none where it is 0), counting columns across all
/// spans; spans without a tab are kept as they are.
pub fn expand_tabs(spans: Vec<Span>, tab_width: usize) -> (r: Vec<Span>)
    requires
        expanded(spans.deep_view(), tab_width as nat).1 <= usize::MAX,
    ensures
        r.deep_view() == expanded(spans.deep_view(), tab_width as nat).0,
{
    let ghost sv = spans.deep_view();
    let ghost tw = tab_width as nat;
    let mut out: Vec<Span> = Vec::new();
    let mut column: usize = 0;
    let mut i: usize = 0;
    assert(sv.take(0) =~= Seq::<SpanView>::empty());
    while i < spans.len()
        invariant
            i <= spans.len(),
            sv == spans.deep_view(),
            tw == tab_width,
            expanded(sv, tw).1 <= usize::MAX,
            out.deep_view() == expanded(sv.take(i as int), tw).0,
            column == expanded(sv.take(i as int), tw).1,
        decreases spans.len() - i,
    {
        let text = chars_of(spans[i].content.as_str());
        let style = spans[i].style;
        let ghost col0 = column as nat;
        proof {
            assert(sv.take(i + 1).drop_last() =~= sv.take(i as int));
            assert(sv.take(i + 1).last() == sv[i as int]);
            lemma_expanded_prefix(sv, tw, i + 1);
        }
        let ghost before = out.deep_view();
        if !has_tab(&text) {
            column = column + text.len();
            out.push(spans[i].copy());
            assert(out.deep_view() =~= before.push(sv[i as int]));
        } else {
            let mut t = String::new();
            let mut j: usize = 0;
            assert(text@.take(0) =~= Seq::<char>::empty());
            while j < text.len()
                invariant
                    j <= text.len(),
                    expand_text(text@, tw, col0).1 <= usize::MAX,
                    tw == tab_width,
                    t@ == expand_text(text@.take(j as int), tw, col0).0,
                    column == expand_text(text@.take(j as int), tw, col0).1,
                decreases text.len() - j,
            {
                proof {
                    assert(text@.take(j + 1).drop_last() =~= text@.take(j as int));
                    lemma_expand_text_prefix(text@, tw, col0, j + 1);
                }
                if text[j] == '\t' {
                    let fill = if tab_width == 0 {
                        0
                    } else {
                        tab_width - column % tab_width
                    };
                    let gap = blanks(fill);
                    t.append(gap.as_str());
                    column = column + fill;
                } else {
                    push_char(&mut t, text[j]);
                    column = column + 1;
                }
                j = j + 1;
            }
            assert(text@.take(j as int) =~= text@);
            out.push(Span { content: t, style });
            assert(out.deep_view() =~= before.push((expand_text(text@, tw, col0).0, style)));
        }
        i = i + 1;
    }
    assert(sv.take(i as int) =~= sv);
    out
}

} // verus!
