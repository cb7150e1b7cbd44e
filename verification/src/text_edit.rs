//! Text-editing helpers shared by every single-line input: the search query,
//! the file-picker query and similar fields all erase words the same way.
use vstd::prelude::*;
use crate::text::{chars_of, push_char};

verus! {

/// Whether `c` has the Unicode `White_Space` property, which is what
/// `char::is_whitespace` reports.
pub open spec fn is_whitespace(c: char) -> bool {
    ||| ('\t' <= c && c <= '\r')
    ||| c == ' '
    ||| c == '\u{85}'
    ||| c == '\u{a0}'
    ||| c == '\u{1680}'
    ||| ('\u{2000}' <= c && c <= '\u{200a}')
    ||| c == '\u{2028}'
    ||| c == '\u{2029}'
    ||| c == '\u{202f}'
    ||| c == '\u{205f}'
    ||| c == '\u{3000}'
}

/// ASCII punctuation: `!` to `/`, `:` to `@`, `[` to `` ` `` and `{` to `~`.
pub open spec fn is_ascii_punctuation(c: char) -> bool {
    ||| ('!' <= c && c <= '/')
    ||| (':' <= c && c <= '@')
    ||| ('[' <= c && c <= '`')
    ||| ('{' <= c && c <= '~')
}

/// The three character classes between which word boundaries sit.
#[derive(PartialEq, Eq, Clone, Copy, Debug, Structural)]
pub enum CharKind {
    Space,
    Punct,
    Other,
}

pub open spec fn kind_of(c: char) -> CharKind {
    if is_whitespace(c) {
        CharKind::Space
    } else if is_ascii_punctuation(c) {
        CharKind::Punct
    } else {
        CharKind::Other
    }
}

pub(crate) fn char_is_whitespace(c: char) -> (b: bool)
    ensures
        b == is_whitespace(c),
{
    ('\t' <= c && c <= '\r') || c == ' ' || c == '\u{85}' || c == '\u{a0}' || c == '\u{1680}'
        || ('\u{2000}' <= c && c <= '\u{200a}') || c == '\u{2028}' || c == '\u{2029}'
        || c == '\u{202f}' || c == '\u{205f}' || c == '\u{3000}'
}

fn char_is_ascii_punctuation(c: char) -> (b: bool)
    ensures
        b == is_ascii_punctuation(c),
{
    ('!' <= c && c <= '/') || (':' <= c && c <= '@') || ('[' <= c && c <= '`') || ('{' <= c
        && c <= '~')
}

impl CharKind {
    /// Classifies a character: whitespace, ASCII punctuation, or anything else
    /// (letters, digits, underscore and every non-ASCII character).
    pub fn classify(c: char) -> (k: CharKind)
        ensures
            k == kind_of(c),
    {
        if char_is_whitespace(c) {
            CharKind::Space
        } else if char_is_ascii_punctuation(c) {
            CharKind::Punct
        } else {
            CharKind::Other
        }
    }
}

/// Length of `s` once its trailing whitespace run is removed.
pub open spec fn trim_end_len(s: Seq<char>) -> nat
    decreases s.len(),
{
    if s.len() > 0 && is_whitespace(s.last()) {
        trim_end_len(s.drop_last())
    } else {
        s.len()
    }
}

/// Start of the longest run of characters of class `k` that ends `s`.
pub open spec fn run_start(s: Seq<char>, k: CharKind) -> nat
    decreases s.len(),
{
    if s.len() > 0 && kind_of(s.last()) == k {
        run_start(s.drop_last(), k)
    } else {
        s.len()
    }
}

/// What erasing one word leaves of `s`: the trailing whitespace and the run
/// of same-class characters before it are removed together.
pub open spec fn erase_word(s: Seq<char>) -> Seq<char> {
    let t = s.take(trim_end_len(s) as int);
    if t.len() == 0 {
        t
    } else {
        s.take(run_start(t, kind_of(t.last())) as int)
    }
}

proof fn lemma_trim_end_len_bound(s: Seq<char>)
    ensures
        trim_end_len(s) <= s.len(),
    decreases s.len(),
{
    if s.len() > 0 && is_whitespace(s.last()) {
        lemma_trim_end_len_bound(s.drop_last());
    }
}

/// Erasing a word keeps a beginning of the text and, unless the text is
/// empty, removes at least one character; so repeated erasing empties any
/// text.
pub proof fn erasing_a_word_shortens(s: Seq<char>)
    ensures
        erase_word(s).is_prefix_of(s),
        s.len() > 0 ==> erase_word(s).len() < s.len(),
        s.len() == 0 ==> erase_word(s) == s,
{
    lemma_trim_end_len_bound(s);
    let t = s.take(trim_end_len(s) as int);
    if t.len() > 0 {
        lemma_run_start_bound(t, kind_of(t.last()));
        assert(run_start(t, kind_of(t.last())) == run_start(t.drop_last(), kind_of(t.last())));
        lemma_run_start_bound(t.drop_last(), kind_of(t.last()));
    } else if s.len() == 0 {
        assert(t =~= s);
    }
}

proof fn lemma_run_start_bound(s: Seq<char>, k: CharKind)
    ensures
        run_start(s, k) <= s.len(),
    decreases s.len(),
{
    if s.len() > 0 && kind_of(s.last()) == k {
        lemma_run_start_bound(s.drop_last(), k);
    }
}

/// Erase the trailing "word" from `s` (macOS `opt+backspace`, readline `^W`).
///
/// Word boundaries sit at transitions between whitespace, ASCII punctuation
/// and other characters. A trailing whitespace run is absorbed into the word
/// being deleted instead of being deleted alone.
pub fn erase_word_backward(s: &mut String)
    ensures
        final(s)@ == erase_word(old(s)@),
{
    let chars = chars_of(s.as_str());
    let ghost cs = chars@;
    let mut end: usize = chars.len();
    assert(cs.take(cs.len() as int) =~= cs);
    while end > 0 && char_is_whitespace(chars[end - 1])
        invariant
            cs == chars@,
            end <= chars.len(),
            trim_end_len(cs) == trim_end_len(cs.take(end as int)),
        decreases end,
    {
        assert(cs.take(end as int).drop_last() =~= cs.take(end - 1));
        end = end - 1;
    }
    assert(trim_end_len(cs.take(end as int)) == end);
    let mut keep: usize = 0;
    if end > 0 {
        let k = CharKind::classify(chars[end - 1]);
        keep = end;
        let ghost t = cs.take(end as int);
        assert(t.take(end as int) =~= t);
        while keep > 0 && CharKind::classify(chars[keep - 1]) == k
            invariant
                cs == chars@,
                keep <= end <= chars.len(),
                t == cs.take(end as int),
                run_start(t, k) == run_start(t.take(keep as int), k),
            decreases keep,
        {
            assert(t.take(keep as int).drop_last() =~= t.take(keep - 1));
            keep = keep - 1;
        }
    }
    let mut result = String::new();
    let mut i: usize = 0;
    while i < keep
        invariant
            cs == chars@,
            keep <= chars.len(),
            i <= keep,
            result@ == cs.take(i as int),
        decreases keep - i,
    {
        push_char(&mut result, chars[i]);
        assert(cs.take(i + 1) =~= cs.take(i as int).push(cs[i as int]));
        i = i + 1;
    }
    *s = result;
}

} // verus!
