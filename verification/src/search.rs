//! Incremental, case-insensitive search over the lines of a side-by-side diff.
use vstd::prelude::*;
use vstd::utf8::encode_utf8;
use crate::text_edit::{erase_word, erase_word_backward};
use crate::text::push_char;

verus! {

/// One line of a side-by-side diff: the old and the new side, each with its
/// line number and text when that side is present.
pub struct DiffLine {
    pub old_line: Option<(usize, String)>,
    pub new_line: Option<(usize, String)>,
}

/// Which panels of the diff are shown.
#[derive(Clone, Copy, PartialEq, Eq, Debug, Structural)]
pub enum DiffFullscreen {
    Off,
    OldOnly,
    NewOnly,
}

#[derive(Clone, Copy, PartialEq, Eq, Debug, Structural)]
pub enum SearchMode {
    Inactive,
    InputForward,
}

impl Default for SearchMode {
    fn default() -> (m: Self)
        ensures
            m == SearchMode::Inactive,
    {
        SearchMode::Inactive
    }
}

#[derive(Clone, Copy, PartialEq, Eq, Debug, Structural)]
pub enum MatchPanel {
    Old,
    New,
}

/// A match of the query: the diff line, the byte range in the lowercased
/// text of that line, and the panel it was found in.
#[derive(Clone, Copy, PartialEq, Eq, Debug, Structural)]
pub struct SearchMatch {
    pub line_index: usize,
    pub start_col: usize,
    pub end_col: usize,
    pub panel: MatchPanel,
}

pub struct SearchState {
    pub mode: SearchMode,
    pub query: String,
    pub matches: Vec<SearchMatch>,
    pub current_match: Option<usize>,
}

impl Default for SearchState {
    fn default() -> (s: Self)
        ensures
            s.mode == SearchMode::Inactive,
            s.query@ == Seq::<char>::empty(),
            s.matches@ == Seq::<SearchMatch>::empty(),
            s.current_match is None,
    {
        SearchState {
            mode: SearchMode::Inactive,
            query: String::new(),
            matches: Vec::new(),
            current_match: None,
        }
    }
}

/// The lowercase mapping of `str::to_lowercase`.
pub uninterp spec fn lowercase(s: Seq<char>) -> Seq<char>;

/// `str::to_lowercase`: Unicode lowercase of the whole string.
#[verifier::external_body]
pub(crate) fn to_lowercase(s: &str) -> (r: String)
    ensures
        r@ == lowercase(s@),
{
    s.to_lowercase()
}

/// Start positions, from `p` on, at which `needle` occurs in `haystack`
/// (overlapping occurrences included).
pub open spec fn occurrences_from(haystack: Seq<u8>, needle: Seq<u8>, p: int) -> Seq<int>
    decreases haystack.len() + 1 - p,
{
    if p < 0 || p + needle.len() > haystack.len() {
        Seq::empty()
    } else if haystack.subrange(p, p + needle.len()) == needle {
        seq![p] + occurrences_from(haystack, needle, p + 1)
    } else {
        occurrences_from(haystack, needle, p + 1)
    }
}

pub open spec fn occurrences(haystack: Seq<u8>, needle: Seq<u8>) -> Seq<int> {
    occurrences_from(haystack, needle, 0)
}

/// All start positions of `needle` in `haystack`, in increasing order.
pub fn find_occurrences(haystack: &[u8], needle: &[u8]) -> (v: Vec<usize>)
    ensures
        v@.len() == occurrences(haystack@, needle@).len(),
        forall|i: int| 0 <= i < v@.len() ==> v@[i] as int == occurrences(haystack@, needle@)[i],
{
    let mut v: Vec<usize> = Vec::new();
    if needle.len() > haystack.len() {
        return v;
    }
    let last = haystack.len() - needle.len();
    let mut p: usize = 0;
    loop
        invariant_except_break
            p <= last,
            v@.len() + occurrences_from(haystack@, needle@, p as int).len() == occurrences(
                haystack@,
                needle@,
            ).len(),
            forall|i: int|
                0 <= i < occurrences_from(haystack@, needle@, p as int).len() ==> occurrences(
                    haystack@,
                    needle@,
                )[v@.len() + i] == occurrences_from(haystack@, needle@, p as int)[i],
        invariant
            last + needle@.len() == haystack@.len(),
            haystack@.len() == haystack.len(),
            forall|i: int|
                0 <= i < v@.len() ==> v@[i] as int == occurrences(haystack@, needle@)[i],
        ensures
            v@.len() == occurrences(haystack@, needle@).len(),
        decreases last - p,
    {
        let mut j: usize = 0;
        let mut same = true;
        while j < needle.len()
            invariant
                last + needle@.len() == haystack@.len(),
                haystack@.len() == haystack.len(),
                p <= last,
                j <= needle@.len(),
                same <==> (forall|k: int| 0 <= k < j ==> haystack@[p + k] == needle@[k]),
            decreases needle@.len() - j,
        {
            if haystack[p + j] != needle[j] {
                same = false;
            }
            j = j + 1;
        }
        let ghost window = haystack@.subrange(p as int, p + needle@.len());
        if same {
            assert(window =~= needle@);
        } else {
            let ghost k = choose|k: int| 0 <= k < needle@.len() && haystack@[p + k] != needle@[k];
            assert(window[k] != needle@[k]);
        }
        let ghost before = occurrences_from(haystack@, needle@, p as int);
        if same {
            assert(before[0] == p as int);
            assert(occurrences(haystack@, needle@)[v@.len() as int] == before[0]);
            v.push(p);
            assert forall|i: int|
                0 <= i < occurrences_from(haystack@, needle@, p + 1).len() implies occurrences(
                haystack@,
                needle@,
            )[v@.len() + i] == #[trigger] occurrences_from(haystack@, needle@, p + 1)[i] by {
                assert(before[i + 1] == occurrences_from(haystack@, needle@, p + 1)[i]);
            }
        }
        assert(v@.len() + occurrences_from(haystack@, needle@, p + 1).len() == occurrences(
            haystack@,
            needle@,
        ).len());
        if p == last {
            assert(occurrences_from(haystack@, needle@, p + 1).len() == 0);
            break;
        }
        p = p + 1;
    }
    v
}

/// The match after the current one among `count`, wrapping around; the
/// first when there is no current match.
pub open spec fn next_index(current: Option<usize>, count: int) -> int {
    let c = match current {
        Some(c) => c as int,
        None => 0,
    };
    if c + 1 >= count {
        0
    } else {
        c + 1
    }
}

/// The match before the current one among `count`, wrapping around.
pub open spec fn prev_index(current: Option<usize>, count: int) -> int {
    let c = match current {
        Some(c) => c as int,
        None => 0,
    };
    if c == 0 {
        count - 1
    } else {
        c - 1
    }
}

/// Stepping to the next match and back, or back and then forward, returns
/// to the same match.
pub proof fn next_and_prev_undo_each_other(i: usize, count: int)
    requires
        i < count,
        count <= usize::MAX,
    ensures
        0 <= next_index(Some(i), count) < count,
        0 <= prev_index(Some(i), count) < count,
        prev_index(Some(next_index(Some(i), count) as usize), count) == i,
        next_index(Some(prev_index(Some(i), count) as usize), count) == i,
{
}

pub open spec fn sat_add(a: usize, b: usize) -> usize {
    if a + b > usize::MAX {
        usize::MAX
    } else {
        (a + b) as usize
    }
}

/// The matches of one panel of one line: `needle` is the lowercased query in
/// UTF-8 and `query_len` the byte length of the query as typed.
pub open spec fn panel_matches(
    line: usize,
    text: Seq<char>,
    needle: Seq<u8>,
    query_len: usize,
    panel: MatchPanel,
) -> Seq<SearchMatch> {
    occurrences(encode_utf8(lowercase(text)), needle).map_values(
        |p: int|
            SearchMatch {
                line_index: line,
                start_col: p as usize,
                end_col: sat_add(p as usize, query_len),
                panel,
            },
    )
}

pub open spec fn side_matches(
    line: usize,
    side: Option<(usize, String)>,
    shown: bool,
    needle: Seq<u8>,
    query_len: usize,
    panel: MatchPanel,
) -> Seq<SearchMatch> {
    match side {
        Some((_, text)) if shown => panel_matches(line, text@, needle, query_len, panel),
        _ => Seq::empty(),
    }
}

pub open spec fn line_matches(
    i: usize,
    line: DiffLine,
    fullscreen: DiffFullscreen,
    needle: Seq<u8>,
    query_len: usize,
) -> Seq<SearchMatch> {
    side_matches(i, line.old_line, fullscreen != DiffFullscreen::NewOnly, needle, query_len, MatchPanel::Old)
        + side_matches(i, line.new_line, fullscreen != DiffFullscreen::OldOnly, needle, query_len, MatchPanel::New)
}

/// Matches over the first `n` lines, line by line, old panel before new.
pub open spec fn all_matches(
    lines: Seq<DiffLine>,
    n: int,
    fullscreen: DiffFullscreen,
    needle: Seq<u8>,
    query_len: usize,
) -> Seq<SearchMatch>
    decreases n,
{
    if n <= 0 {
        Seq::empty()
    } else {
        all_matches(lines, n - 1, fullscreen, needle, query_len) + line_matches(
            (n - 1) as usize,
            lines[n - 1],
            fullscreen,
            needle,
            query_len,
        )
    }
}

/// Whether `needle` occurs in `haystack` at byte `p`.
pub open spec fn occurs_at(haystack: Seq<u8>, needle: Seq<u8>, p: int) -> bool {
    0 <= p && p + needle.len() <= haystack.len() && haystack.subrange(p, p + needle.len()) == needle
}

proof fn lemma_occurrence_listed(haystack: Seq<u8>, needle: Seq<u8>, q: int, p: int)
    requires
        0 <= q <= p,
        occurs_at(haystack, needle, p),
    ensures
        occurrences_from(haystack, needle, q).contains(p),
    decreases p - q,
{
    let rest = occurrences_from(haystack, needle, q + 1);
    if q == p {
        assert(occurrences_from(haystack, needle, q)[0] == p);
    } else {
        lemma_occurrence_listed(haystack, needle, q + 1, p);
        let k = choose|k: int| 0 <= k < rest.len() && rest[k] == p;
        if haystack.subrange(q, q + needle.len()) == needle {
            assert(occurrences_from(haystack, needle, q)[k + 1] == p);
        } else {
            assert(occurrences_from(haystack, needle, q)[k] == p);
        }
    }
}

proof fn lemma_all_matches_include(
    lines: Seq<DiffLine>,
    n: int,
    fullscreen: DiffFullscreen,
    needle: Seq<u8>,
    query_len: usize,
    i: int,
    m: SearchMatch,
)
    requires
        0 <= i < n <= lines.len(),
        line_matches(i as usize, lines[i], fullscreen, needle, query_len).contains(m),
    ensures
        all_matches(lines, n, fullscreen, needle, query_len).contains(m),
    decreases n,
{
    let prev = all_matches(lines, n - 1, fullscreen, needle, query_len);
    let here = line_matches((n - 1) as usize, lines[n - 1], fullscreen, needle, query_len);
    assert(all_matches(lines, n, fullscreen, needle, query_len) == prev + here);
    if i < n - 1 {
        lemma_all_matches_include(lines, n - 1, fullscreen, needle, query_len, i, m);
        let k = choose|k: int| 0 <= k < prev.len() && prev[k] == m;
        assert((prev + here)[k] == m);
    } else {
        let k = choose|k: int| 0 <= k < here.len() && here[k] == m;
        assert((prev + here)[prev.len() + k] == m);
    }
}

/// The search finds every occurrence of the lowercased query in the
/// lowercased text of every shown panel: in a line's old text whenever the
/// old panel is shown (the normal view and old-only fullscreen), in its new
/// text whenever the new panel is shown (the normal view and new-only
/// fullscreen). Each is a match at that line, panel and byte offset.
pub proof fn search_finds_every_shown_occurrence(
    lines: Seq<DiffLine>,
    fullscreen: DiffFullscreen,
    needle: Seq<u8>,
    query_len: usize,
    i: int,
    p: usize,
)
    requires
        0 <= i < lines.len() <= usize::MAX,
    ensures
        lines[i].old_line matches Some((_, text)) ==> (fullscreen != DiffFullscreen::NewOnly && occurs_at(
            encode_utf8(lowercase(text@)),
            needle,
            p as int,
        ) ==> all_matches(lines, lines.len() as int, fullscreen, needle, query_len).contains(
            SearchMatch { line_index: i as usize, start_col: p, end_col: sat_add(p, query_len), panel: MatchPanel::Old },
        )),
        lines[i].new_line matches Some((_, text)) ==> (fullscreen != DiffFullscreen::OldOnly && occurs_at(
            encode_utf8(lowercase(text@)),
            needle,
            p as int,
        ) ==> all_matches(lines, lines.len() as int, fullscreen, needle, query_len).contains(
            SearchMatch { line_index: i as usize, start_col: p, end_col: sat_add(p, query_len), panel: MatchPanel::New },
        )),
{
    let old_side = side_matches(i as usize, lines[i].old_line, fullscreen != DiffFullscreen::NewOnly, needle, query_len, MatchPanel::Old);
    let new_side = side_matches(i as usize, lines[i].new_line, fullscreen != DiffFullscreen::OldOnly, needle, query_len, MatchPanel::New);
    let here = line_matches(i as usize, lines[i], fullscreen, needle, query_len);
    assert(here == old_side + new_side);
    if fullscreen != DiffFullscreen::NewOnly && lines[i].old_line is Some {
        let text = lines[i].old_line.unwrap().1;
        let h = encode_utf8(lowercase(text@));
        if occurs_at(h, needle, p as int) {
            lemma_occurrence_listed(h, needle, 0, p as int);
            let occ = occurrences(h, needle);
            let k = choose|k: int| 0 <= k < occ.len() && occ[k] == p as int;
            let m = SearchMatch { line_index: i as usize, start_col: p, end_col: sat_add(p, query_len), panel: MatchPanel::Old };
            assert(old_side[k] == m);
            assert(here[k] == m);
            lemma_all_matches_include(lines, lines.len() as int, fullscreen, needle, query_len, i, m);
        }
    }
    if fullscreen != DiffFullscreen::OldOnly && lines[i].new_line is Some {
        let text = lines[i].new_line.unwrap().1;
        let h = encode_utf8(lowercase(text@));
        if occurs_at(h, needle, p as int) {
            lemma_occurrence_listed(h, needle, 0, p as int);
            let occ = occurrences(h, needle);
            let k = choose|k: int| 0 <= k < occ.len() && occ[k] == p as int;
            let m = SearchMatch { line_index: i as usize, start_col: p, end_col: sat_add(p, query_len), panel: MatchPanel::New };
            assert(new_side[k] == m);
            assert(here[old_side.len() + k] == m);
            lemma_all_matches_include(lines, lines.len() as int, fullscreen, needle, query_len, i, m);
        }
    }
}

proof fn lemma_occurrences_are_occurrences(haystack: Seq<u8>, needle: Seq<u8>, q: int)
    requires
        0 <= q,
    ensures
        forall|k: int|
            0 <= k < occurrences_from(haystack, needle, q).len() ==> occurs_at(
                haystack,
                needle,
                #[trigger] occurrences_from(haystack, needle, q)[k],
            ),
    decreases haystack.len() + 1 - q,
{
    if !(q + needle.len() > haystack.len()) {
        lemma_occurrences_are_occurrences(haystack, needle, q + 1);
        let rest = occurrences_from(haystack, needle, q + 1);
        let cur = occurrences_from(haystack, needle, q);
        assert forall|k: int| 0 <= k < cur.len() implies occurs_at(haystack, needle, #[trigger] cur[k]) by {
            if haystack.subrange(q, q + needle.len()) == needle {
                if k > 0 {
                    assert(cur[k] == rest[k - 1]);
                }
            } else {
                assert(cur[k] == rest[k]);
            }
        }
    }
}

/// Every match is an occurrence of the query on a shown panel: its line
/// is one of the diff's lines, its panel is shown and has text there, the
/// lowercased query occurs at its start in that lowercased text, and it
/// spans the query's length.
pub proof fn search_matches_only_shown_occurrences(
    lines: Seq<DiffLine>,
    fullscreen: DiffFullscreen,
    needle: Seq<u8>,
    query_len: usize,
    k: int,
)
    requires
        lines.len() <= usize::MAX,
        0 <= k < all_matches(lines, lines.len() as int, fullscreen, needle, query_len).len(),
    ensures
        ({
            let m = all_matches(lines, lines.len() as int, fullscreen, needle, query_len)[k];
            &&& m.line_index < lines.len()
            &&& m.end_col == sat_add(m.start_col, query_len)
            &&& m.panel == MatchPanel::Old ==> fullscreen != DiffFullscreen::NewOnly && (lines[m.line_index as int].old_line matches Some((_, text)) && exists|p: int| occurs_at(encode_utf8(lowercase(text@)), needle, p) && #[trigger] (p as usize) == m.start_col)
            &&& m.panel == MatchPanel::New ==> fullscreen != DiffFullscreen::OldOnly && (lines[m.line_index as int].new_line matches Some((_, text)) && exists|p: int| occurs_at(encode_utf8(lowercase(text@)), needle, p) && #[trigger] (p as usize) == m.start_col)
        }),
{
    lemma_matches_sound(lines, lines.len() as int, fullscreen, needle, query_len, k);
}

proof fn lemma_matches_sound(
    lines: Seq<DiffLine>,
    n: int,
    fullscreen: DiffFullscreen,
    needle: Seq<u8>,
    query_len: usize,
    k: int,
)
    requires
        0 <= n <= lines.len() <= usize::MAX,
        0 <= k < all_matches(lines, n, fullscreen, needle, query_len).len(),
    ensures
        ({
            let m = all_matches(lines, n, fullscreen, needle, query_len)[k];
            &&& m.line_index < n
            &&& m.end_col == sat_add(m.start_col, query_len)
            &&& m.panel == MatchPanel::Old ==> fullscreen != DiffFullscreen::NewOnly && (lines[m.line_index as int].old_line matches Some((_, text)) && exists|p: int| occurs_at(encode_utf8(lowercase(text@)), needle, p) && #[trigger] (p as usize) == m.start_col)
            &&& m.panel == MatchPanel::New ==> fullscreen != DiffFullscreen::OldOnly && (lines[m.line_index as int].new_line matches Some((_, text)) && exists|p: int| occurs_at(encode_utf8(lowercase(text@)), needle, p) && #[trigger] (p as usize) == m.start_col)
        }),
    decreases n,
{
    let prev = all_matches(lines, n - 1, fullscreen, needle, query_len);
    let i = n - 1;
    let old_side = side_matches(i as usize, lines[i].old_line, fullscreen != DiffFullscreen::NewOnly, needle, query_len, MatchPanel::Old);
    let new_side = side_matches(i as usize, lines[i].new_line, fullscreen != DiffFullscreen::OldOnly, needle, query_len, MatchPanel::New);
    assert(all_matches(lines, n, fullscreen, needle, query_len) == prev + (old_side + new_side));
    if k < prev.len() {
        lemma_matches_sound(lines, n - 1, fullscreen, needle, query_len, k);
    } else if k < prev.len() + old_side.len() {
        let j = k - prev.len();
        let text = lines[i].old_line.unwrap().1;
        let h = encode_utf8(lowercase(text@));
        lemma_occurrences_are_occurrences(h, needle, 0);
        assert(occurs_at(h, needle, occurrences(h, needle)[j]));
        let p = occurrences(h, needle)[j];
        let m = SearchMatch { line_index: i as usize, start_col: p as usize, end_col: sat_add(p as usize, query_len), panel: MatchPanel::Old };
        assert(old_side[j] == m);
        assert((prev + (old_side + new_side))[k] == m);
    } else {
        let j = k - prev.len() - old_side.len();
        let text = lines[i].new_line.unwrap().1;
        let h = encode_utf8(lowercase(text@));
        lemma_occurrences_are_occurrences(h, needle, 0);
        assert(occurs_at(h, needle, occurrences(h, needle)[j]));
        let p = occurrences(h, needle)[j];
        let m = SearchMatch { line_index: i as usize, start_col: p as usize, end_col: sat_add(p as usize, query_len), panel: MatchPanel::New };
        assert(new_side[j] == m);
        assert((prev + (old_side + new_side))[k] == m);
    }
}

/// Index of the first element of `s` satisfying `p`.
pub open spec fn first_index<A>(s: Seq<A>, p: spec_fn(A) -> bool) -> Option<int>
    decreases s.len(),
{
    if s.len() == 0 {
        None
    } else if p(s[0]) {
        Some(0)
    } else {
        match first_index(s.drop_first(), p) {
            Some(i) => Some(i + 1),
            None => None,
        }
    }
}

proof fn lemma_first_index_scan<A>(s: Seq<A>, p: spec_fn(A) -> bool, i: int)
    requires
        0 <= i <= s.len(),
        forall|j: int| 0 <= j < i ==> !p(s[j]),
    ensures
        i < s.len() && p(s[i]) ==> first_index(s, p) == Some(i),
        i == s.len() ==> first_index(s, p) is None,
    decreases i,
{
    if i > 0 {
        let t = s.drop_first();
        assert forall|j: int| 0 <= j < i - 1 implies !p(t[j]) by {
            assert(t[j] == s[j + 1]);
        }
        lemma_first_index_scan(t, p, i - 1);
        if i < s.len() {
            assert(t[i - 1] == s[i]);
        }
    }
}

/// Holds of exactly the given match.
pub open spec fn same_as(previous: SearchMatch) -> spec_fn(SearchMatch) -> bool {
    |m: SearchMatch| m == previous
}

/// Holds of the matches on `line` or below it.
pub open spec fn at_or_after(line: usize) -> spec_fn(SearchMatch) -> bool {
    |m: SearchMatch| m.line_index >= line
}

/// Where the current match goes after the matches are rebuilt: the same
/// match if it still exists, else the first match at or after its line,
/// else the first match.
pub open spec fn restored(ms: Seq<SearchMatch>, previous: SearchMatch) -> Option<usize> {
    match first_index(ms, same_as(previous)) {
        Some(i) => Some(i as usize),
        None => if ms.len() == 0 {
            None
        } else {
            match first_index(ms, at_or_after(previous.line_index)) {
                Some(i) => Some(i as usize),
                None => Some(0),
            }
        },
    }
}

proof fn lemma_first_index_props<A>(s: Seq<A>, p: spec_fn(A) -> bool)
    ensures
        first_index(s, p) matches Some(i) ==> 0 <= i < s.len() && p(s[i]) && forall|j: int| 0 <= j < i ==> !p(#[trigger] s[j]),
        first_index(s, p) is None ==> forall|j: int| 0 <= j < s.len() ==> !p(#[trigger] s[j]),
    decreases s.len(),
{
    if s.len() > 0 && !p(s[0]) {
        let t = s.drop_first();
        lemma_first_index_props(t, p);
        if first_index(t, p) is None {
            assert forall|j: int| 0 <= j < s.len() implies !p(#[trigger] s[j]) by {
                if j > 0 {
                    assert(s[j] == t[j - 1]);
                }
            }
        } else {
            let i = first_index(t, p).unwrap();
            assert(s[i + 1] == t[i]);
            assert forall|j: int| 0 <= j < i + 1 implies !p(#[trigger] s[j]) by {
                if j > 0 {
                    assert(s[j] == t[j - 1]);
                }
            }
        }
    }
}

/// After the matches are rebuilt the current match follows the previous
/// one: it is the first match equal to it when it is still found; when it
/// is gone, it is the first match on its line or below, or the first match
/// when there is none below; it is `None` only when nothing matches.
pub proof fn current_match_follows_the_previous_one(ms: Seq<SearchMatch>, previous: SearchMatch)
    requires
        ms.len() <= usize::MAX,
    ensures
        (exists|k: int| 0 <= k < ms.len() && ms[k] == previous) ==> (restored(ms, previous) matches Some(i) && i < ms.len()
            && ms[i as int] == previous && forall|j: int| 0 <= j < i ==> #[trigger] ms[j] != previous),
        (!exists|k: int| 0 <= k < ms.len() && ms[k] == previous) && (exists|k: int|
            0 <= k < ms.len() && ms[k].line_index >= previous.line_index) ==> (restored(ms, previous) matches Some(i)
            && i < ms.len() && ms[i as int].line_index >= previous.line_index && forall|j: int|
            0 <= j < i ==> #[trigger] ms[j].line_index < previous.line_index),
        (!exists|k: int| 0 <= k < ms.len() && ms[k].line_index >= previous.line_index) && ms.len() > 0 ==> restored(
            ms,
            previous,
        ) == Some(0usize),
        ms.len() == 0 ==> restored(ms, previous) is None,
{
    lemma_first_index_props(ms, same_as(previous));
    lemma_first_index_props(ms, at_or_after(previous.line_index));
    if exists|k: int| 0 <= k < ms.len() && ms[k] == previous {
        let k = choose|k: int| 0 <= k < ms.len() && ms[k] == previous;
        assert(same_as(previous)(ms[k]));
    }
    if exists|k: int| 0 <= k < ms.len() && ms[k].line_index >= previous.line_index {
        let k = choose|k: int| 0 <= k < ms.len() && ms[k].line_index >= previous.line_index;
        assert(at_or_after(previous.line_index)(ms[k]));
    }
    if !exists|k: int| 0 <= k < ms.len() && ms[k] == previous {
        if first_index(ms, same_as(previous)) is Some {
            let i = first_index(ms, same_as(previous)).unwrap();
            assert(ms[i] == previous);
        }
    }
    if !exists|k: int| 0 <= k < ms.len() && ms[k].line_index >= previous.line_index {
        if first_index(ms, at_or_after(previous.line_index)) is Some {
            let i = first_index(ms, at_or_after(previous.line_index)).unwrap();
            assert(ms[i].line_index >= previous.line_index);
        }
        if first_index(ms, same_as(previous)) is Some {
            let i = first_index(ms, same_as(previous)).unwrap();
            assert(ms[i] == previous);
        }
    }
}

/// The match the current-match index designates, if any.
pub open spec fn current_of(s: SearchState) -> Option<SearchMatch> {
    match s.current_match {
        Some(i) if i < s.matches@.len() => Some(s.matches@[i as int]),
        _ => None,
    }
}

/// The `(start, end, is_current)` triples of the matches among the first `n`
/// that lie on `line` in `panel`.
pub open spec fn line_panel_matches(
    ms: Seq<SearchMatch>,
    n: int,
    current: Option<usize>,
    line: usize,
    panel: MatchPanel,
) -> Seq<(usize, usize, bool)>
    decreases n,
{
    if n <= 0 {
        Seq::empty()
    } else {
        let rest = line_panel_matches(ms, n - 1, current, line, panel);
        let m = ms[n - 1];
        if m.line_index == line && m.panel == panel {
            rest.push((m.start_col, m.end_col, current == Some((n - 1) as usize)))
        } else {
            rest
        }
    }
}

fn same_match(a: &SearchMatch, b: &SearchMatch) -> (r: bool)
    ensures
        r == (*a == *b),
{
    a.line_index == b.line_index && a.start_col == b.start_col && a.end_col == b.end_col
        && a.panel == b.panel
}

fn push_panel_matches(
    matches: &mut Vec<SearchMatch>,
    line: usize,
    text: &String,
    needle: &[u8],
    query_len: usize,
    panel: MatchPanel,
)
    ensures
        final(matches)@ == old(matches)@ + panel_matches(
            line,
            text@,
            needle@,
            query_len,
            panel,
        ),
{
    let lowered = to_lowercase(text.as_str());
    let positions = find_occurrences(lowered.as_str().as_bytes(), needle);
    let ghost occ = occurrences(encode_utf8(lowercase(text@)), needle@);
    let ghost start = matches@;
    let mut k: usize = 0;
    while k < positions.len()
        invariant
            occ == occurrences(encode_utf8(lowercase(text@)), needle@),
            positions@.len() == occ.len(),
            forall|i: int| 0 <= i < positions@.len() ==> positions@[i] as int == occ[i],
            k <= positions@.len(),
            matches@ == start + panel_matches(line, text@, needle@, query_len, panel).take(
                k as int,
            ),
        decreases positions@.len() - k,
    {
        let p = positions[k];
        matches.push(
            SearchMatch {
                line_index: line,
                start_col: p,
                end_col: p.saturating_add(query_len),
                panel,
            },
        );
        let ghost pm = panel_matches(line, text@, needle@, query_len, panel);
        assert(pm.len() == occ.len());
        assert(pm[k as int] == SearchMatch {
            line_index: line,
            start_col: p,
            end_col: p.saturating_add(query_len),
            panel,
        });
        assert(pm.take(k + 1) =~= pm.take(k as int).push(pm[k as int]));
        k = k + 1;
    }
    let ghost pm = panel_matches(line, text@, needle@, query_len, panel);
    assert(pm.len() == occ.len());
    assert(pm.take(k as int) =~= pm);
}

impl SearchState {
    /// Starts a new forward search with an empty query.
    pub fn start_forward(&mut self)
        ensures
            final(self).mode == SearchMode::InputForward,
            final(self).query@ == Seq::<char>::empty(),
            final(self).matches@ == Seq::<SearchMatch>::empty(),
            final(self).current_match is None,
    {
        self.mode = SearchMode::InputForward;
        self.query = String::new();
        self.matches.clear();
        self.current_match = None;
    }

    /// Leaves search mode and forgets the query and its matches.
    pub fn cancel(&mut self)
        ensures
            final(self).mode == SearchMode::Inactive,
            final(self).query@ == Seq::<char>::empty(),
            final(self).matches@ == Seq::<SearchMatch>::empty(),
            final(self).current_match is None,
    {
        self.mode = SearchMode::Inactive;
        self.query = String::new();
        self.matches.clear();
        self.current_match = None;
    }

    /// Forgets the query and its matches; the mode stays.
    pub fn clear(&mut self)
        ensures
            final(self).mode == old(self).mode,
            final(self).query@ == Seq::<char>::empty(),
            final(self).matches@ == Seq::<SearchMatch>::empty(),
            final(self).current_match is None,
    {
        self.query = String::new();
        self.matches.clear();
        self.current_match = None;
    }

    /// Leaves input mode, keeping the query and its matches.
    pub fn confirm(&mut self)
        ensures
            final(self).mode == SearchMode::Inactive,
            final(self).query@ == old(self).query@,
            final(self).matches@ == old(self).matches@,
            final(self).current_match == old(self).current_match,
    {
        self.mode = SearchMode::Inactive;
    }

    pub fn push_char(&mut self, c: char)
        ensures
            final(self).query@ == old(self).query@.push(c),
            final(self).mode == old(self).mode,
            final(self).matches@ == old(self).matches@,
            final(self).current_match == old(self).current_match,
    {
        push_char(&mut self.query, c);
    }

    pub fn pop_char(&mut self)
        ensures
            final(self).query@ == (if old(self).query@.len() == 0 {
                old(self).query@
            } else {
                old(self).query@.drop_last()
            }),
            final(self).mode == old(self).mode,
            final(self).matches@ == old(self).matches@,
            final(self).current_match == old(self).current_match,
    {
        let chars = crate::text::chars_of(self.query.as_str());
        if chars.len() == 0 {
            return;
        }
        let mut rebuilt = String::new();
        let mut i: usize = 0;
        let n = chars.len() - 1;
        while i < n
            invariant
                chars@ == old(self).query@,
                n + 1 == chars@.len(),
                i <= n,
                rebuilt@ == chars@.take(i as int),
            decreases n - i,
        {
            push_char(&mut rebuilt, chars[i]);
            assert(chars@.take(i + 1) =~= chars@.take(i as int).push(chars@[i as int]));
            i = i + 1;
        }
        assert(chars@.take(n as int) =~= chars@.drop_last());
        self.query = rebuilt;
    }

    /// Drops the trailing word from the query, with the same word boundaries
    /// as every other single-line input.
    pub fn erase_word(&mut self)
        ensures
            final(self).query@ == erase_word(old(self).query@),
            final(self).mode == old(self).mode,
            final(self).matches@ == old(self).matches@,
            final(self).current_match == old(self).current_match,
    {
        erase_word_backward(&mut self.query);
    }

    pub fn is_active(&self) -> (b: bool)
        ensures
            b == (self.mode != SearchMode::Inactive),
    {
        self.mode != SearchMode::Inactive
    }

    pub fn has_query(&self) -> (b: bool)
        ensures
            b == (self.query@.len() > 0),
    {
        !self.query.as_str().is_empty()
    }

    /// Rebuilds the matches of the query over `lines`, ignoring case, and
    /// keeps the current match on the same occurrence where it still exists.
    pub fn update_matches(&mut self, lines: &[DiffLine], fullscreen: DiffFullscreen)
        ensures
            final(self).mode == old(self).mode,
            final(self).query@ == old(self).query@,
            old(self).query@.len() == 0 ==> final(self).matches@ == Seq::<SearchMatch>::empty()
                && final(self).current_match is None,
            old(self).query@.len() > 0 ==> final(self).matches@ == all_matches(
                lines@,
                lines@.len() as int,
                fullscreen,
                encode_utf8(lowercase(old(self).query@)),
                encode_utf8(old(self).query@).len() as usize,
            ),
            old(self).query@.len() > 0 && current_of(*old(self)) is None 
                ==> final(self).current_match == old(self).current_match,
            old(self).query@.len() > 0 ==> (current_of(*old(self)) matches Some(previous)
                ==> final(self).current_match == restored(final(self).matches@, previous)),
    {
        if self.query.as_str().is_empty() {
            self.matches.clear();
            self.current_match = None;
            return;
        }
        let previous = match self.current_match {
            Some(i) => if i < self.matches.len() {
                Some(self.matches[i])
            } else {
                None
            },
            None => None,
        };
        let ghost old_current = current_of(*self);
        assert(previous == old_current);
        self.matches.clear();
        let lowered_query = to_lowercase(self.query.as_str());
        let needle = lowered_query.as_str().as_bytes();
        let query_len = self.query.as_str().as_bytes().len();
        let ghost q = self.query@;
        let mut i: usize = 0;
        while i < lines.len()
            invariant
                i <= lines@.len(),
                self.query@ == q,
                needle@ == encode_utf8(lowercase(q)),
                query_len == encode_utf8(q).len(),
                self.mode == old(self).mode,
                self.current_match == old(self).current_match,
                self.matches@ == all_matches(lines@, i as int, fullscreen, needle@, query_len),
            decreases lines@.len() - i,
        {
            let line = &lines[i];
            if fullscreen != DiffFullscreen::NewOnly {
                match &line.old_line {
                    Some((_, text)) => push_panel_matches(
                        &mut self.matches,
                        i,
                        text,
                        needle,
                        query_len,
                        MatchPanel::Old,
                    ),
                    None => {},
                }
            }
            if fullscreen != DiffFullscreen::OldOnly {
                match &line.new_line {
                    Some((_, text)) => push_panel_matches(
                        &mut self.matches,
                        i,
                        text,
                        needle,
                        query_len,
                        MatchPanel::New,
                    ),
                    None => {},
                }
            }
            assert(self.matches@ =~= all_matches(lines@, i + 1, fullscreen, needle@, query_len));
            i = i + 1;
        }
        match previous {
            None => {},
            Some(prev) => {
                let ghost ms = self.matches@;
                let mut j: usize = 0;
                let mut found: Option<usize> = None;
                while j < self.matches.len()
                    invariant_except_break
                        found is None,
                    invariant
                        ms == self.matches@,
                        j <= ms.len(),
                        forall|k: int| 0 <= k < j ==> ms[k] != prev,
                    ensures
                        found is None ==> j == ms.len(),
                        found matches Some(f) ==> f == j && j < ms.len() && ms[j as int] == prev,
                    decreases ms.len() - j,
                {
                    if same_match(&self.matches[j], &prev) {
                        found = Some(j);
                        break;
                    }
                    j = j + 1;
                }
                proof {
                    lemma_first_index_scan(ms, same_as(prev), j as int);
                }
                if found.is_none() && self.matches.len() > 0 {
                    let mut k: usize = 0;
                    while k < self.matches.len() && self.matches[k].line_index < prev.line_index
                        invariant
                            ms == self.matches@,
                            k <= ms.len(),
                            forall|t: int| 0 <= t < k ==> ms[t].line_index < prev.line_index,
                        decreases ms.len() - k,
                    {
                        k = k + 1;
                    }
                    proof {
                        lemma_first_index_scan(ms, at_or_after(prev.line_index), k as int);
                    }
                    found = if k < self.matches.len() {
                        Some(k)
                    } else {
                        Some(0)
                    };
                }
                self.current_match = found;
            },
        }
    }

    /// Moves to the next match, wrapping to the first, and returns its line.
    pub fn find_next(&mut self) -> (line: Option<usize>)
        ensures
            final(self).mode == old(self).mode,
            final(self).query@ == old(self).query@,
            final(self).matches@ == old(self).matches@,
            old(self).matches@.len() == 0 ==> line is None && final(self).current_match
                == old(self).current_match,
            old(self).matches@.len() > 0 ==> {
                let next = next_index(old(self).current_match, old(self).matches@.len() as int);
                &&& final(self).current_match == Some(next as usize)
                &&& line == Some(old(self).matches@[next].line_index)
            },
    {
        if self.matches.len() == 0 {
            return None;
        }
        let current = match self.current_match {
            Some(c) => c,
            None => 0,
        };
        let next = if current >= self.matches.len() - 1 {
            0
        } else {
            current + 1
        };
        self.current_match = Some(next);
        Some(self.matches[next].line_index)
    }

    /// Moves to the previous match, wrapping to the last, and returns its line.
    pub fn find_prev(&mut self) -> (line: Option<usize>)
        requires
            old(self).current_match matches Some(c) ==> c <= old(self).matches@.len(),
        ensures
            final(self).mode == old(self).mode,
            final(self).query@ == old(self).query@,
            final(self).matches@ == old(self).matches@,
            old(self).matches@.len() == 0 ==> line is None && final(self).current_match
                == old(self).current_match,
            old(self).matches@.len() > 0 ==> {
                let prev = prev_index(old(self).current_match, old(self).matches@.len() as int);
                &&& final(self).current_match == Some(prev as usize)
                &&& line == Some(old(self).matches@[prev].line_index)
            },
    {
        if self.matches.len() == 0 {
            return None;
        }
        let current = match self.current_match {
            Some(c) => c,
            None => 0,
        };
        let prev = if current == 0 {
            self.matches.len() - 1
        } else {
            current - 1
        };
        self.current_match = Some(prev);
        Some(self.matches[prev].line_index)
    }

    /// Selects the first match at or below `current_scroll` (or the first
    /// match) and returns its line.
    pub fn jump_to_first_match(&mut self, current_scroll: usize) -> (line: Option<usize>)
        ensures
            final(self).mode == old(self).mode,
            final(self).query@ == old(self).query@,
            final(self).matches@ == old(self).matches@,
            old(self).matches@.len() == 0 ==> line is None && final(self).current_match
                == old(self).current_match,
            old(self).matches@.len() > 0 ==> {
                let idx = match first_index(old(self).matches@, at_or_after(current_scroll)) {
                    Some(i) => i,
                    None => 0,
                };
                &&& final(self).current_match == Some(idx as usize)
                &&& line == Some(old(self).matches@[idx].line_index)
            },
    {
        if self.matches.len() == 0 {
            return None;
        }
        let ghost ms = self.matches@;
        let mut k: usize = 0;
        while k < self.matches.len() && self.matches[k].line_index < current_scroll
            invariant
                ms == self.matches@,
                k <= ms.len(),
                forall|t: int| 0 <= t < k ==> ms[t].line_index < current_scroll,
            decreases ms.len() - k,
        {
            k = k + 1;
        }
        proof {
            lemma_first_index_scan(ms, at_or_after(current_scroll), k as int);
        }
        let idx = if k < self.matches.len() {
            k
        } else {
            0
        };
        self.current_match = Some(idx);
        Some(self.matches[idx].line_index)
    }

    pub fn match_count(&self) -> (n: usize)
        ensures
            n == self.matches@.len(),
    {
        self.matches.len()
    }

    pub fn current_match_index(&self) -> (i: Option<usize>)
        ensures
            i == self.current_match,
    {
        self.current_match
    }

    /// The matches on `line_index` in `panel`, in order, each flagged when it
    /// is the current match.
    pub fn get_matches_for_line(&self, line_index: usize, panel: MatchPanel) -> (v: Vec<
        (usize, usize, bool),
    >)
        ensures
            v@ == line_panel_matches(
                self.matches@,
                self.matches@.len() as int,
                self.current_match,
                line_index,
                panel,
            ),
    {
        let mut v: Vec<(usize, usize, bool)> = Vec::new();
        let mut i: usize = 0;
        while i < self.matches.len()
            invariant
                i <= self.matches@.len(),
                v@ == line_panel_matches(
                    self.matches@,
                    i as int,
                    self.current_match,
                    line_index,
                    panel,
                ),
            decreases self.matches@.len() - i,
        {
            let m = self.matches[i];
            if m.line_index == line_index && m.panel == panel {
                let is_current = match self.current_match {
                    Some(c) => c == i,
                    None => false,
                };
                v.push((m.start_col, m.end_col, is_current));
            }
            i = i + 1;
        }
        v
    }
}

} // verus!
