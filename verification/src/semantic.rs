//! Deterministic TypeScript/TSX structure and change analysis: which
//! declarations a file has, and how they changed between two versions.
use vstd::prelude::*;
use vstd::string::StringExecFns;
use crate::paths::{extension, extension_of, chars_are};
use crate::text::{chars_of, decimal, push_char, push_decimal};
use crate::text_edit::is_whitespace;
use crate::syntax::{Grammar, SyntaxNode, child_by_field, field_child, parse_syntax, parsed_from, slice_text, text_slice};
use crate::diff::FileDiff;
use vstd::string::StringSliceAdditionalSpecFns;
use vstd::utf8::encode_utf8;

verus! {

#[derive(Clone, Copy, Debug, PartialEq, Eq, Hash, Structural)]
pub enum SymbolKind {
    Function,
    Method,
    Class,
    Interface,
    Type,
    Enum,
    Variable,
}

/// How a kind of declaration is named in the outline.
pub open spec fn kind_label(kind: SymbolKind) -> Seq<char> {
    match kind {
        SymbolKind::Function => "function"@,
        SymbolKind::Method => "method"@,
        SymbolKind::Class => "class"@,
        SymbolKind::Interface => "interface"@,
        SymbolKind::Type => "type"@,
        SymbolKind::Enum => "enum"@,
        SymbolKind::Variable => "function variable"@,
    }
}

impl SymbolKind {
    pub fn label(self) -> (s: &'static str)
        ensures
            s@ == kind_label(self),
    {
        match self {
            SymbolKind::Function => "function",
            SymbolKind::Method => "method",
            SymbolKind::Class => "class",
            SymbolKind::Interface => "interface",
            SymbolKind::Type => "type",
            SymbolKind::Enum => "enum",
            SymbolKind::Variable => "function variable",
        }
    }
}

/// A declaration found in a file: where it starts (1-based line, 0-based
/// column of its name) and ends, its signature with whitespace normalized,
/// and a hash of its text with its own name blanked out.
#[derive(Clone, Debug)]
pub struct FileSymbol {
    pub name: String,
    pub kind: SymbolKind,
    pub line: usize,
    pub column: usize,
    pub end_line: usize,
    pub signature: String,
    pub body_hash: String,
}

#[derive(Clone, Copy, Debug, PartialEq, Eq, Structural)]
pub enum SemanticChangeKind {
    Added,
    Removed,
    Renamed,
    Moved,
    SignatureChanged,
    ImplementationChanged,
}

#[derive(Clone, Debug)]
pub struct SemanticChange {
    pub kind: SemanticChangeKind,
    pub symbol_kind: SymbolKind,
    pub name: String,
    pub previous_name: Option<String>,
    pub old_line: Option<usize>,
    pub new_line: Option<usize>,
    pub detail: String,
}

/// The declarations of the new version of a file, how they changed, and
/// how many syntax errors the parser met in both versions.
#[derive(Clone, Debug)]
pub struct FileSemanticAnalysis {
    pub symbols: Vec<FileSymbol>,
    pub changes: Vec<SemanticChange>,
    pub parse_errors: usize,
}

impl Default for FileSemanticAnalysis {
    fn default() -> (a: Self)
        ensures
            a.symbols@.len() == 0,
            a.changes@.len() == 0,
            a.parse_errors == 0,
    {
        FileSemanticAnalysis { symbols: Vec::new(), changes: Vec::new(), parse_errors: 0 }
    }
}

/// TypeScript sources: `.ts`, `.tsx`, `.mts` and `.cts`.
pub open spec fn typescript_path(path: Seq<char>) -> bool {
    match extension(path) {
        Some(e) => e == "ts"@ || e == "tsx"@ || e == "mts"@ || e == "cts"@,
        None => false,
    }
}

pub fn is_typescript_path(path: &str) -> (b: bool)
    ensures
        b == typescript_path(path@),
{
    match extension_of(path) {
        Some(e) => chars_are(&e, "ts") || chars_are(&e, "tsx") || chars_are(&e, "mts")
            || chars_are(&e, "cts"),
        None => false,
    }
}

/// The words of `s`: its maximal runs of non-whitespace characters;
/// `current` is the word being read.
pub open spec fn words_from(s: Seq<char>, current: Seq<char>) -> Seq<Seq<char>>
    decreases s.len(),
{
    if s.len() == 0 {
        if current.len() > 0 {
            seq![current]
        } else {
            Seq::empty()
        }
    } else if is_whitespace(s[0]) {
        (if current.len() > 0 {
            seq![current]
        } else {
            Seq::<Seq<char>>::empty()
        }) + words_from(s.drop_first(), Seq::empty())
    } else {
        words_from(s.drop_first(), current.push(s[0]))
    }
}

/// Words joined by single spaces.
pub open spec fn join_words(words: Seq<Seq<char>>) -> Seq<char>
    decreases words.len(),
{
    if words.len() == 0 {
        Seq::empty()
    } else if words.len() == 1 {
        words[0]
    } else {
        join_words(words.drop_last()) + seq![' '] + words.last()
    }
}

/// `s` with its whitespace runs collapsed to single spaces and trimmed at
/// both ends (`split_whitespace` joined by `" "`).
pub open spec fn normalized(s: Seq<char>) -> Seq<char> {
    join_words(words_from(s, Seq::empty()))
}

/// Appends the characters of `word`.
fn push_chars(out: &mut String, word: &Vec<char>)
    ensures
        final(out)@ == old(out)@ + word@,
{
    let mut k: usize = 0;
    while k < word.len()
        invariant
            k <= word@.len(),
            out@ == old(out)@ + word@.take(k as int),
        decreases word@.len() - k,
    {
        push_char(out, word[k]);
        assert(word@.take(k + 1) =~= word@.take(k as int).push(word@[k as int]));
        k = k + 1;
    }
    assert(word@.take(word@.len() as int) =~= word@);
}

/// Appends a word to the words joined so far.
fn push_word(out: &mut String, word: &Vec<char>, Ghost(done): Ghost<Seq<Seq<char>>>, any: bool)
    requires
        old(out)@ == join_words(done),
        any == (done.len() > 0),
    ensures
        final(out)@ == join_words(done.push(word@)),
{
    if any {
        push_char(out, ' ');
    }
    push_chars(out, word);
    assert(done.push(word@).drop_last() =~= done);
}

pub fn normalize_whitespace(value: &str) -> (r: String)
    ensures
        r@ == normalized(value@),
{
    let chars = chars_of(value);
    let mut out = String::new();
    let mut current: Vec<char> = Vec::new();
    let ghost mut done: Seq<Seq<char>> = Seq::empty();
    let mut any = false;
    let mut i: usize = 0;
    assert(chars@.skip(0) =~= chars@);
    assert(current@ =~= Seq::<char>::empty());
    while i < chars.len()
        invariant
            chars@ == value@,
            i <= chars@.len(),
            out@ == join_words(done),
            any == (done.len() > 0),
            done + words_from(chars@.skip(i as int), current@) == words_from(value@, Seq::empty()),
        decreases chars@.len() - i,
    {
        let ghost rest = chars@.skip(i as int);
        assert(rest[0] == chars@[i as int]);
        assert(rest.drop_first() =~= chars@.skip(i + 1));
        let c = chars[i];
        let ghost cur0 = current@;
        let ghost done0 = done;
        if crate::text_edit::char_is_whitespace(c) {
            assert(words_from(rest, cur0) == (if cur0.len() > 0 {
                seq![cur0]
            } else {
                Seq::<Seq<char>>::empty()
            }) + words_from(chars@.skip(i + 1), Seq::empty()));
            if current.len() > 0 {
                push_word(&mut out, &current, Ghost(done), any);
                proof {
                    done = done.push(current@);
                }
                any = true;
                current = Vec::new();
                assert(done0 + (seq![cur0] + words_from(chars@.skip(i + 1), Seq::empty())) =~= done
                    + words_from(chars@.skip(i + 1), Seq::empty()));
            } else {
                assert(Seq::<Seq<char>>::empty() + words_from(chars@.skip(i + 1), Seq::empty())
                    =~= words_from(chars@.skip(i + 1), Seq::empty()));
            }
            assert(current@ =~= Seq::<char>::empty());
            assert(done + words_from(chars@.skip(i + 1), current@) =~= words_from(value@, Seq::empty()));
        } else {
            current.push(c);
            assert(done + words_from(chars@.skip(i + 1), current@) =~= words_from(value@, Seq::empty()));
        }
        i = i + 1;
    }
    assert(chars@.skip(i as int) =~= Seq::<char>::empty());
    if current.len() > 0 {
        push_word(&mut out, &current, Ghost(done), any);
        proof {
            assert(words_from(chars@.skip(i as int), current@) =~= seq![current@]);
            assert(done.push(current@) =~= done + seq![current@]);
        }
    } else {
        assert(words_from(chars@.skip(i as int), current@) =~= Seq::<Seq<char>>::empty());
        assert(done + Seq::<Seq<char>>::empty() =~= done);
    }
    out
}


/// A change as values: kind, symbol kind, name, previous name, old line,
/// new line and detail.
pub type ChangeView = (
    SemanticChangeKind,
    SymbolKind,
    Seq<char>,
    Option<Seq<char>>,
    Option<usize>,
    Option<usize>,
    Seq<char>,
);

pub open spec fn opt_text(s: Option<String>) -> Option<Seq<char>> {
    match s {
        Some(t) => Some(t@),
        None => None,
    }
}

pub open spec fn change_view(c: SemanticChange) -> ChangeView {
    (c.kind, c.symbol_kind, c.name@, opt_text(c.previous_name), c.old_line, c.new_line, c.detail@)
}

pub open spec fn change_views(cs: Seq<SemanticChange>) -> Seq<ChangeView> {
    cs.map_values(|c: SemanticChange| change_view(c))
}

/// The first old symbol from `from` on that is not matched yet and has the
/// name and kind of `cur`.
pub open spec fn first_free(old: Seq<FileSymbol>, matched: Set<int>, cur: FileSymbol, from: int) -> Option<int>
    decreases old.len() - from,
{
    if from < 0 || from >= old.len() {
        None
    } else if !matched.contains(from) && old[from].name@ == cur.name@ && old[from].kind == cur.kind {
        Some(from)
    } else {
        first_free(old, matched, cur, from + 1)
    }
}

pub open spec fn line_distance(a: usize, b: usize) -> int {
    if a >= b {
        a - b
    } else {
        b - a
    }
}

/// What became of a symbol found under the same name and kind: its
/// signature changed; or it moved more than two lines with the same body;
/// or its body changed; or nothing worth reporting.
pub open spec fn matched_change(prev: FileSymbol, cur: FileSymbol) -> Seq<ChangeView> {
    if prev.signature@ != cur.signature@ {
        seq![(SemanticChangeKind::SignatureChanged, cur.kind, cur.name@, None, Some(prev.line), Some(cur.line),
            prev.signature@ + " → "@ + cur.signature@)]
    } else if prev.body_hash@ == cur.body_hash@ && line_distance(prev.line, cur.line) > 2 {
        seq![(SemanticChangeKind::Moved, cur.kind, cur.name@, None, Some(prev.line), Some(cur.line),
            "Line "@ + decimal(prev.line as nat) + " → "@ + decimal(cur.line as nat))]
    } else if prev.body_hash@ != cur.body_hash@ {
        seq![(SemanticChangeKind::ImplementationChanged, cur.kind, cur.name@, None, Some(prev.line), Some(cur.line),
            "Body changed while the signature stayed stable"@)]
    } else {
        Seq::empty()
    }
}

/// Matching by identity: each of the first `j` new symbols, in order, takes
/// the first unmatched old symbol of the same name and kind. The matched old
/// and new indices, and the changes found so far.
pub open spec fn match_by_name(old: Seq<FileSymbol>, new: Seq<FileSymbol>, j: int) -> (Set<int>, Set<int>, Seq<ChangeView>)
    decreases j,
{
    if j <= 0 {
        (Set::empty(), Set::empty(), Seq::empty())
    } else {
        let (mo, mn, ch) = match_by_name(old, new, j - 1);
        match first_free(old, mo, new[j - 1], 0) {
            Some(i) => (mo.insert(i), mn.insert(j - 1), ch + matched_change(old[i], new[j - 1])),
            None => (mo, mn, ch),
        }
    }
}

/// The unmatched old symbols among the first `n` with the kind and body
/// hash of `cur`, in order.
pub open spec fn rename_candidates(old: Seq<FileSymbol>, matched: Set<int>, cur: FileSymbol, n: int) -> Seq<int>
    decreases n,
{
    if n <= 0 {
        Seq::empty()
    } else {
        let rest = rename_candidates(old, matched, cur, n - 1);
        let i = n - 1;
        if !matched.contains(i) && old[i].kind == cur.kind && old[i].body_hash@ == cur.body_hash@ {
            rest.push(i)
        } else {
            rest
        }
    }
}

pub open spec fn rename_view(prev: FileSymbol, cur: FileSymbol) -> ChangeView {
    (SemanticChangeKind::Renamed, cur.kind, cur.name@, Some(prev.name@), Some(prev.line), Some(cur.line),
        kind_label(cur.kind) + " retained its structural body"@)
}

/// Matching by body: each of the first `j` new symbols still unmatched is
/// a rename of the one unmatched old symbol with its kind and body hash,
/// when there is exactly one such candidate.
pub open spec fn match_by_body(
    old: Seq<FileSymbol>,
    new: Seq<FileSymbol>,
    j: int,
    start: (Set<int>, Set<int>, Seq<ChangeView>),
) -> (Set<int>, Set<int>, Seq<ChangeView>)
    decreases j,
{
    if j <= 0 {
        start
    } else {
        let (mo, mn, ch) = match_by_body(old, new, j - 1, start);
        let c = rename_candidates(old, mo, new[j - 1], old.len() as int);
        if !mn.contains(j - 1) && c.len() == 1 {
            (mo.insert(c[0]), mn.insert(j - 1), ch.push(rename_view(old[c[0]], new[j - 1])))
        } else {
            (mo, mn, ch)
        }
    }
}

/// The old symbols among the first `n` that found no match.
pub open spec fn removed_changes(old: Seq<FileSymbol>, matched: Set<int>, n: int) -> Seq<ChangeView>
    decreases n,
{
    if n <= 0 {
        Seq::empty()
    } else {
        let rest = removed_changes(old, matched, n - 1);
        let p = old[n - 1];
        if matched.contains(n - 1) {
            rest
        } else {
            rest.push((SemanticChangeKind::Removed, p.kind, p.name@, None, Some(p.line), None, p.signature@))
        }
    }
}

/// The new symbols among the first `n` that found no match.
pub open spec fn added_changes(new: Seq<FileSymbol>, matched: Set<int>, n: int) -> Seq<ChangeView>
    decreases n,
{
    if n <= 0 {
        Seq::empty()
    } else {
        let rest = added_changes(new, matched, n - 1);
        let c = new[n - 1];
        if matched.contains(n - 1) {
            rest
        } else {
            rest.push((SemanticChangeKind::Added, c.kind, c.name@, None, None, Some(c.line), c.signature@))
        }
    }
}

/// Where a change is listed: its new line, else its old line, else 0.
pub open spec fn change_key(c: ChangeView) -> int {
    match c.5 {
        Some(l) => l as int,
        None => match c.4 {
            Some(l) => l as int,
            None => 0,
        },
    }
}

/// The first position in `s` whose key is below `key`, or its length.
pub open spec fn insert_position(s: Seq<ChangeView>, key: int, from: int) -> int
    decreases s.len() - from,
{
    if from < 0 || from >= s.len() {
        s.len() as int
    } else if change_key(s[from]) < key {
        from
    } else {
        insert_position(s, key, from + 1)
    }
}

/// The changes ordered by descending key, keeping the order of equal keys
/// (a stable sort: each change is placed after those already placed with
/// a key at least its own).
pub open spec fn sort_by_line_desc(s: Seq<ChangeView>) -> Seq<ChangeView>
    decreases s.len(),
{
    if s.len() == 0 {
        s
    } else {
        let sorted = sort_by_line_desc(s.drop_last());
        let p = insert_position(sorted, change_key(s.last()), 0);
        sorted.take(p) + seq![s.last()] + sorted.skip(p)
    }
}

/// All the changes between two symbol lists, latest lines first.
pub open spec fn symbol_changes(old: Seq<FileSymbol>, new: Seq<FileSymbol>) -> Seq<ChangeView> {
    let first = match_by_name(old, new, new.len() as int);
    let (mo, mn, ch) = match_by_body(old, new, new.len() as int, first);
    sort_by_line_desc(ch + removed_changes(old, mo, old.len() as int) + added_changes(new, mn, new.len() as int))
}


/// The indices below `n`.
pub open spec fn below(n: int) -> Set<int> {
    Set::new(|i: int| 0 <= i < n)
}

proof fn lemma_first_free_self(s: Seq<FileSymbol>, j: int, from: int)
    requires
        0 <= from <= j < s.len(),
    ensures
        first_free(s, below(j), s[j], from) == Some(j),
    decreases j - from,
{
    if from < j {
        assert(below(j).contains(from));
        lemma_first_free_self(s, j, from + 1);
    } else {
        assert(!below(j).contains(j));
    }
}

proof fn lemma_match_by_name_self(s: Seq<FileSymbol>, j: int)
    requires
        0 <= j <= s.len(),
    ensures
        match_by_name(s, s, j) == (below(j), below(j), Seq::<ChangeView>::empty()),
    decreases j,
{
    if j > 0 {
        lemma_match_by_name_self(s, j - 1);
        lemma_first_free_self(s, j - 1, 0);
        assert(matched_change(s[j - 1], s[j - 1]) =~= Seq::<ChangeView>::empty());
        assert(below(j - 1).insert(j - 1) =~= below(j));
        assert(Seq::<ChangeView>::empty() + Seq::<ChangeView>::empty() =~= Seq::<ChangeView>::empty());
    } else {
        assert(below(0) =~= Set::<int>::empty());
    }
}

proof fn lemma_match_by_body_matched(s: Seq<FileSymbol>, j: int, n: int)
    requires
        0 <= j <= n <= s.len(),
    ensures
        match_by_body(s, s, j, (below(n), below(n), Seq::<ChangeView>::empty())) == (below(n), below(n), Seq::<ChangeView>::empty()),
    decreases j,
{
    if j > 0 {
        lemma_match_by_body_matched(s, j - 1, n);
        assert(below(n).contains(j - 1));
    }
}

proof fn lemma_nothing_removed(s: Seq<FileSymbol>, k: int, n: int)
    requires
        0 <= k <= n,
    ensures
        removed_changes(s, below(n), k) == Seq::<ChangeView>::empty(),
        added_changes(s, below(n), k) == Seq::<ChangeView>::empty(),
    decreases k,
{
    if k > 0 {
        lemma_nothing_removed(s, k - 1, n);
        assert(below(n).contains(k - 1));
    }
}

/// Comparing a version of a file with itself reports no change.
pub proof fn same_version_has_no_changes(symbols: Seq<FileSymbol>)
    ensures
        symbol_changes(symbols, symbols) == Seq::<ChangeView>::empty(),
{
    let n = symbols.len() as int;
    lemma_match_by_name_self(symbols, n);
    lemma_match_by_body_matched(symbols, n, n);
    lemma_nothing_removed(symbols, n, n);
    assert(Seq::<ChangeView>::empty() + Seq::<ChangeView>::empty() + Seq::<ChangeView>::empty() =~= Seq::<ChangeView>::empty());
}

/// A change reported for a symbol matched by name: the symbol's kind and
/// name, and both lines.
pub fn change(
    kind: SemanticChangeKind,
    previous: &FileSymbol,
    current: &FileSymbol,
    detail: String,
) -> (c: SemanticChange)
    ensures
        change_view(c) == (kind, current.kind, current.name@, None::<Seq<char>>, Some(previous.line), Some(
            current.line,
        ), detail@),
{
    SemanticChange {
        kind,
        symbol_kind: current.kind,
        name: current.name.clone(),
        previous_name: None,
        old_line: Some(previous.line),
        new_line: Some(current.line),
        detail,
    }
}

fn same_text(a: &String, b: &String) -> (r: bool)
    ensures
        r == (a@ == b@),
{
    *a == *b
}

fn matched_change_of(prev: &FileSymbol, cur: &FileSymbol) -> (r: Option<SemanticChange>)
    ensures
        match r {
            Some(c) => matched_change(*prev, *cur) == seq![change_view(c)],
            None => matched_change(*prev, *cur) == Seq::<ChangeView>::empty(),
        },
{
    let distance = if prev.line >= cur.line {
        prev.line - cur.line
    } else {
        cur.line - prev.line
    };
    if !same_text(&prev.signature, &cur.signature) {
        let mut detail = prev.signature.clone();
        detail.append(" → ");
        detail.append(cur.signature.as_str());
        Some(change(SemanticChangeKind::SignatureChanged, prev, cur, detail))
    } else if same_text(&prev.body_hash, &cur.body_hash) && distance > 2 {
        let mut detail = String::new();
        detail.append("Line ");
        push_decimal(&mut detail, prev.line);
        detail.append(" → ");
        push_decimal(&mut detail, cur.line);
        assert(detail@ =~= "Line "@ + decimal(prev.line as nat) + " → "@ + decimal(cur.line as nat));
        Some(change(SemanticChangeKind::Moved, prev, cur, detail))
    } else if !same_text(&prev.body_hash, &cur.body_hash) {
        let mut detail = String::new();
        detail.append("Body changed while the signature stayed stable");
        Some(change(SemanticChangeKind::ImplementationChanged, prev, cur, detail))
    } else {
        None
    }
}

/// Whether `flags` records exactly the members of `set` below its length.
pub open spec fn flags_of(flags: Seq<bool>, set: Set<int>) -> bool {
    forall|i: int| 0 <= i < flags.len() ==> (#[trigger] flags[i] <==> set.contains(i))
}

fn match_names(old: &[FileSymbol], new: &[FileSymbol]) -> (r: (Vec<bool>, Vec<bool>, Vec<SemanticChange>))
    ensures
        r.0@.len() == old@.len(),
        r.1@.len() == new@.len(),
        flags_of(r.0@, match_by_name(old@, new@, new@.len() as int).0),
        flags_of(r.1@, match_by_name(old@, new@, new@.len() as int).1),
        change_views(r.2@) == match_by_name(old@, new@, new@.len() as int).2,
{
    let mut matched_old: Vec<bool> = Vec::new();
    let mut k: usize = 0;
    while k < old.len()
        invariant
            k <= old@.len(),
            matched_old@.len() == k,
            forall|i: int| 0 <= i < k ==> !(#[trigger] matched_old@[i]),
        decreases old@.len() - k,
    {
        matched_old.push(false);
        k = k + 1;
    }
    let mut matched_new: Vec<bool> = Vec::new();
    let mut changes: Vec<SemanticChange> = Vec::new();
    let mut j: usize = 0;
    assert(change_views(changes@) =~= Seq::<ChangeView>::empty());
    while j < new.len()
        invariant
            j <= new@.len(),
            matched_old@.len() == old@.len(),
            matched_new@.len() == j,
            flags_of(matched_old@, match_by_name(old@, new@, j as int).0),
            flags_of(matched_new@, match_by_name(old@, new@, j as int).1),
            forall|i: int| j <= i ==> !match_by_name(old@, new@, j as int).1.contains(i),
            change_views(changes@) == match_by_name(old@, new@, j as int).2,
        decreases new@.len() - j,
    {
        let ghost state = match_by_name(old@, new@, j as int);
        let cur = &new[j];
        let mut i: usize = 0;
        while i < old.len() && (matched_old[i] || !same_text(&old[i].name, &cur.name) || old[i].kind
            != cur.kind)
            invariant
                i <= old@.len(),
                j < new@.len(),
                *cur == new@[j as int],
                matched_old@.len() == old@.len(),
                flags_of(matched_old@, state.0),
                first_free(old@, state.0, new@[j as int], 0) == first_free(
                    old@,
                    state.0,
                    new@[j as int],
                    i as int,
                ),
            decreases old@.len() - i,
        {
            i = i + 1;
        }
        let ghost before = change_views(changes@);
        if i < old.len() {
            matched_old.set(i, true);
            matched_new.push(true);
            match matched_change_of(&old[i], cur) {
                Some(c) => {
                    changes.push(c);
                },
                None => {},
            }
            assert(change_views(changes@) =~= before + matched_change(old@[i as int], new@[j as int]));
        } else {
            matched_new.push(false);
        }
        assert(flags_of(matched_old@, match_by_name(old@, new@, j + 1).0));
        assert(flags_of(matched_new@, match_by_name(old@, new@, j + 1).1));
        j = j + 1;
    }
    (matched_old, matched_new, changes)
}


proof fn lemma_candidates_bound(old: Seq<FileSymbol>, mo: Set<int>, cur: FileSymbol, n: int)
    ensures
        forall|k: int|
            0 <= k < rename_candidates(old, mo, cur, n).len() ==> 0 <= #[trigger] rename_candidates(
                old,
                mo,
                cur,
                n,
            )[k] < n,
    decreases n,
{
    if n > 0 {
        lemma_candidates_bound(old, mo, cur, n - 1);
        let rest = rename_candidates(old, mo, cur, n - 1);
        assert forall|k: int| 0 <= k < rename_candidates(old, mo, cur, n).len() implies 0
            <= #[trigger] rename_candidates(old, mo, cur, n)[k] < n by {
            if k < rest.len() {
                assert(rename_candidates(old, mo, cur, n)[k] == rest[k]);
            }
        }
    }
}

fn candidates_for(old: &[FileSymbol], matched_old: &Vec<bool>, cur: &FileSymbol, Ghost(mo): Ghost<Set<int>>) -> (c: Vec<usize>)
    requires
        matched_old@.len() == old@.len(),
        flags_of(matched_old@, mo),
    ensures
        c@.len() == rename_candidates(old@, mo, *cur, old@.len() as int).len(),
        forall|k: int| 0 <= k < c@.len() ==> #[trigger] c@[k] as int == rename_candidates(old@, mo, *cur, old@.len() as int)[k],
{
    let mut c: Vec<usize> = Vec::new();
    let mut i: usize = 0;
    while i < old.len()
        invariant
            i <= old@.len(),
            matched_old@.len() == old@.len(),
            flags_of(matched_old@, mo),
            c@.len() == rename_candidates(old@, mo, *cur, i as int).len(),
            forall|k: int| 0 <= k < c@.len() ==> #[trigger] c@[k] as int == rename_candidates(old@, mo, *cur, i as int)[k],
        decreases old@.len() - i,
    {
        if !matched_old[i] && old[i].kind == cur.kind && same_text(&old[i].body_hash, &cur.body_hash) {
            c.push(i);
        }
        i = i + 1;
    }
    c
}

fn match_bodies(
    earlier: &[FileSymbol],
    new: &[FileSymbol],
    matched_old: &mut Vec<bool>,
    matched_new: &mut Vec<bool>,
    changes: &mut Vec<SemanticChange>,
    Ghost(start): Ghost<(Set<int>, Set<int>, Seq<ChangeView>)>,
)
    requires
        old(matched_old)@.len() == earlier@.len(),
        old(matched_new)@.len() == new@.len(),
        flags_of(old(matched_old)@, start.0),
        flags_of(old(matched_new)@, start.1),
        change_views(old(changes)@) == start.2,
    ensures
        final(matched_old)@.len() == earlier@.len(),
        final(matched_new)@.len() == new@.len(),
        flags_of(final(matched_old)@, match_by_body(earlier@, new@, new@.len() as int, start).0),
        flags_of(final(matched_new)@, match_by_body(earlier@, new@, new@.len() as int, start).1),
        change_views(final(changes)@) == match_by_body(earlier@, new@, new@.len() as int, start).2,
{
    let mut j: usize = 0;
    while j < new.len()
        invariant
            j <= new@.len(),
            matched_old@.len() == earlier@.len(),
            matched_new@.len() == new@.len(),
            flags_of(matched_old@, match_by_body(earlier@, new@, j as int, start).0),
            flags_of(matched_new@, match_by_body(earlier@, new@, j as int, start).1),
            change_views(changes@) == match_by_body(earlier@, new@, j as int, start).2,
        decreases new@.len() - j,
    {
        let ghost state = match_by_body(earlier@, new@, j as int, start);
        let cur = &new[j];
        if !matched_new[j] {
            let cands = candidates_for(earlier, matched_old, cur, Ghost(state.0));
            if cands.len() == 1 {
                let i = cands[0];
                proof {
                    lemma_candidates_bound(earlier@, state.0, new@[j as int], earlier@.len() as int);
                }
                let previous = &earlier[i];
                let mut detail = String::new();
                detail.append(cur.kind.label());
                detail.append(" retained its structural body");
                let ghost before = change_views(changes@);
                changes.push(
                    SemanticChange {
                        kind: SemanticChangeKind::Renamed,
                        symbol_kind: cur.kind,
                        name: cur.name.clone(),
                        previous_name: Some(previous.name.clone()),
                        old_line: Some(previous.line),
                        new_line: Some(cur.line),
                        detail,
                    },
                );
                assert(change_views(changes@) =~= before.push(rename_view(earlier@[i as int], new@[j as int])));
                matched_old.set(i, true);
                matched_new.set(j, true);
            }
        }
        assert(flags_of(matched_old@, match_by_body(earlier@, new@, j + 1, start).0));
        assert(flags_of(matched_new@, match_by_body(earlier@, new@, j + 1, start).1));
        j = j + 1;
    }
}

fn push_removed(earlier: &[FileSymbol], matched_old: &Vec<bool>, changes: &mut Vec<SemanticChange>, Ghost(mo): Ghost<Set<int>>)
    requires
        matched_old@.len() == earlier@.len(),
        flags_of(matched_old@, mo),
    ensures
        change_views(final(changes)@) == change_views(old(changes)@) + removed_changes(earlier@, mo, earlier@.len() as int),
{
    let mut i: usize = 0;
    while i < earlier.len()
        invariant
            i <= earlier@.len(),
            matched_old@.len() == earlier@.len(),
            flags_of(matched_old@, mo),
            change_views(changes@) == change_views(old(changes)@) + removed_changes(earlier@, mo, i as int),
        decreases earlier@.len() - i,
    {
        if !matched_old[i] {
            let p = &earlier[i];
            let ghost before = changes@;
            changes.push(
                SemanticChange {
                    kind: SemanticChangeKind::Removed,
                    symbol_kind: p.kind,
                    name: p.name.clone(),
                    previous_name: None,
                    old_line: Some(p.line),
                    new_line: None,
                    detail: p.signature.clone(),
                },
            );
            assert(changes@ =~= before.push(changes@.last()));
            assert(change_views(changes@) =~= change_views(before).push(change_view(changes@.last())));
            assert(change_views(changes@) =~= change_views(old(changes)@) + removed_changes(earlier@, mo, i + 1));
        } else {
            assert(removed_changes(earlier@, mo, i + 1) == removed_changes(earlier@, mo, i as int));
        }
        i = i + 1;
    }
}

fn push_added(new: &[FileSymbol], matched_new: &Vec<bool>, changes: &mut Vec<SemanticChange>, Ghost(mn): Ghost<Set<int>>)
    requires
        matched_new@.len() == new@.len(),
        flags_of(matched_new@, mn),
    ensures
        change_views(final(changes)@) == change_views(old(changes)@) + added_changes(new@, mn, new@.len() as int),
{
    let mut i: usize = 0;
    while i < new.len()
        invariant
            i <= new@.len(),
            matched_new@.len() == new@.len(),
            flags_of(matched_new@, mn),
            change_views(changes@) == change_views(old(changes)@) + added_changes(new@, mn, i as int),
        decreases new@.len() - i,
    {
        if !matched_new[i] {
            let c = &new[i];
            let ghost before = changes@;
            changes.push(
                SemanticChange {
                    kind: SemanticChangeKind::Added,
                    symbol_kind: c.kind,
                    name: c.name.clone(),
                    previous_name: None,
                    old_line: None,
                    new_line: Some(c.line),
                    detail: c.signature.clone(),
                },
            );
            assert(changes@ =~= before.push(changes@.last()));
            assert(change_views(changes@) =~= change_views(before).push(change_view(changes@.last())));
            assert(change_views(changes@) =~= change_views(old(changes)@) + added_changes(new@, mn, i + 1));
        } else {
            assert(added_changes(new@, mn, i + 1) == added_changes(new@, mn, i as int));
        }
        i = i + 1;
    }
}

fn key_of(c: &SemanticChange) -> (k: usize)
    ensures
        k as int == change_key(change_view(*c)),
{
    match c.new_line {
        Some(l) => l,
        None => match c.old_line {
            Some(l) => l,
            None => 0,
        },
    }
}

/// Stable sort of the changes by descending line.
fn sort_changes(changes: Vec<SemanticChange>) -> (sorted: Vec<SemanticChange>)
    ensures
        change_views(sorted@) == sort_by_line_desc(change_views(changes@)),
{
    let ghost all = change_views(changes@);
    let mut rest = changes;
    let mut sorted: Vec<SemanticChange> = Vec::new();
    let mut i: usize = 0;
    let n = rest.len();
    assert(all.take(0) =~= Seq::<ChangeView>::empty());
    assert(change_views(sorted@) =~= Seq::<ChangeView>::empty());
    assert(all.skip(0) =~= all);
    while i < n
        invariant
            n == all.len(),
            i <= n,
            change_views(rest@) == all.skip(i as int),
            change_views(sorted@) == sort_by_line_desc(all.take(i as int)),
        decreases n - i,
    {
        assert(change_views(rest@).len() == rest@.len());
        assert(rest@.len() == all.len() - i);
        let ghost r0 = rest@;
        let c = rest.remove(0);
        assert(rest@ =~= r0.subrange(1, r0.len() as int));
        assert(change_views(r0)[0] == change_view(r0[0]));
        assert(change_view(c) == all[i as int]);
        assert forall|t: int| 0 <= t < rest@.len() implies #[trigger] change_views(rest@)[t] == all.skip(
            i + 1,
        )[t] by {
            assert(rest@[t] == r0[t + 1]);
            assert(change_views(r0)[t + 1] == change_view(r0[t + 1]));
        }
        assert(change_views(rest@) =~= all.skip(i + 1));
        let key = key_of(&c);
        let ghost s0 = change_views(sorted@);
        let mut p: usize = 0;
        while p < sorted.len() && key_of(&sorted[p]) >= key
            invariant
                p <= sorted@.len(),
                s0 == change_views(sorted@),
                insert_position(s0, key as int, 0) == insert_position(s0, key as int, p as int),
            decreases sorted@.len() - p,
        {
            p = p + 1;
        }
        sorted.insert(p, c);
        assert(all.take(i + 1).drop_last() =~= all.take(i as int));
        assert(all.take(i + 1).last() == all[i as int]);
        assert(change_views(sorted@) =~= s0.take(p as int) + seq![all[i as int]] + s0.skip(p as int));
        i = i + 1;
    }
    assert(all.take(n as int) =~= all);
    sorted
}

/// The semantic changes from `old` to `new`: symbols matched by name and
/// kind that changed signature, moved or changed body; unmatched symbols
/// matched by a unique identical body as renames; the rest removed or
/// added. Latest lines come first; equal lines keep that order.
pub fn compare_symbols(old: &[FileSymbol], new: &[FileSymbol]) -> (changes: Vec<SemanticChange>)
    ensures
        change_views(changes@) == symbol_changes(old@, new@),
{
    let ghost first = match_by_name(old@, new@, new@.len() as int);
    let (mut matched_old, mut matched_new, mut changes) = match_names(old, new);
    match_bodies(old, new, &mut matched_old, &mut matched_new, &mut changes, Ghost(first));
    let ghost second = match_by_body(old@, new@, new@.len() as int, first);
    push_removed(old, &matched_old, &mut changes, Ghost(second.0));
    push_added(new, &matched_new, &mut changes, Ghost(second.1));
    sort_changes(changes)
}


/// The SHA-256 digest of some bytes.
pub uninterp spec fn sha256_of(data: Seq<u8>) -> Seq<u8>;

/// `sha2::Sha256::digest`: the 32-byte SHA-256 digest of `data`.
#[verifier::external_body]
fn sha256(data: &[u8]) -> (r: Vec<u8>)
    ensures
        r@ == sha256_of(data@),
        r@.len() == 32,
{
    <sha2::Sha256 as sha2::Digest>::digest(data).to_vec()
}

/// The lowercase hexadecimal digit for `d < 16`.
pub open spec fn hex_digit(d: int) -> char {
    if d < 10 {
        (48 + d) as char
    } else {
        (87 + d) as char
    }
}

/// Bytes as lowercase hexadecimal, two digits per byte.
pub open spec fn hex(bytes: Seq<u8>) -> Seq<char>
    decreases bytes.len(),
{
    if bytes.len() == 0 {
        Seq::empty()
    } else {
        hex(bytes.drop_last()) + seq![hex_digit((bytes.last() / 16) as int), hex_digit((bytes.last() % 16) as int)]
    }
}

fn hex_char(d: u8) -> (c: char)
    requires
        d < 16,
    ensures
        c == hex_digit(d as int),
{
    let table = "0123456789abcdef";
    proof {
        reveal_strlit("0123456789abcdef");
    }
    table.get_char(d as usize)
}

/// The SHA-256 digest of the UTF-8 text `value`, in lowercase hexadecimal.
pub fn digest(value: &str) -> (r: String)
    ensures
        r@ == hex(sha256_of(value.spec_bytes())),
{
    digest_bytes(value.as_bytes())
}

/// The SHA-256 digest of `data`, in lowercase hexadecimal.
pub fn digest_bytes(data: &[u8]) -> (r: String)
    ensures
        r@ == hex(sha256_of(data@)),
{
    let hash = sha256(data);
    let mut r = String::new();
    let mut i: usize = 0;
    while i < hash.len()
        invariant
            i <= hash@.len(),
            r@ == hex(hash@.take(i as int)),
        decreases hash@.len() - i,
    {
        let b = hash[i];
        push_char(&mut r, hex_char(b / 16));
        push_char(&mut r, hex_char(b % 16));
        assert(hash@.take(i + 1).drop_last() =~= hash@.take(i as int));
        i = i + 1;
    }
    assert(hash@.take(hash@.len() as int) =~= hash@);
    r
}

/// A declaration as values: name, kind, line, column, last line,
/// signature and body hash.
pub type SymbolView = (Seq<char>, SymbolKind, int, int, int, Seq<char>, Seq<char>);

pub open spec fn symbol_view_of(s: FileSymbol) -> SymbolView {
    (s.name@, s.kind, s.line as int, s.column as int, s.end_line as int, s.signature@, s.body_hash@)
}

/// The kind of declaration that node `i` is, if it is one: functions,
/// methods, classes, interfaces, type aliases, enums, and variables bound
/// to an arrow function or function expression.
pub open spec fn declared_kind(nodes: Seq<SyntaxNode>, i: int) -> Option<SymbolKind> {
    let k = nodes[i].kind@;
    if k == "function_declaration"@ || k == "generator_function_declaration"@ {
        Some(SymbolKind::Function)
    } else if k == "method_definition"@ || k == "method_signature"@ {
        Some(SymbolKind::Method)
    } else if k == "class_declaration"@ {
        Some(SymbolKind::Class)
    } else if k == "interface_declaration"@ {
        Some(SymbolKind::Interface)
    } else if k == "type_alias_declaration"@ {
        Some(SymbolKind::Type)
    } else if k == "enum_declaration"@ {
        Some(SymbolKind::Enum)
    } else if k == "variable_declarator"@ {
        match field_child(nodes, i, "value"@) {
            Some(v) => if nodes[v].kind@ == "arrow_function"@ || nodes[v].kind@ == "function_expression"@ {
                Some(SymbolKind::Variable)
            } else {
                None
            },
            None => None,
        }
    } else {
        None
    }
}

pub open spec fn sat_sub(a: usize, b: usize) -> int {
    if a >= b {
        a - b
    } else {
        0
    }
}

/// The row after `row`, counted from 1 (every row of a source has one).
pub open spec fn next_row(row: usize) -> int {
    if row < usize::MAX {
        row + 1
    } else {
        row as int
    }
}

/// The text of a declaration with its name replaced by `<symbol>`, so that
/// a renamed declaration keeps its body hash; the text itself when the
/// name does not lie inside it on character boundaries.
pub open spec fn structural_text(text: Seq<char>, name_start: int, name_end: int) -> Seq<char> {
    let b = encode_utf8(text);
    if name_start <= name_end && slice_text(b, 0, name_start) is Some && slice_text(b, name_end, b.len() as int) is Some {
        slice_text(b, 0, name_start).unwrap() + "<symbol>"@ + slice_text(b, name_end, b.len() as int).unwrap()
    } else {
        text
    }
}

/// The declaration at node `i` of the nodes of a source whose bytes are
/// `bytes`: its name is the text of its `name` child; its signature is its
/// text up to its `body` child, whitespace normalized; its body hash is the
/// hash of its normalized structural text. `None` when the node is not a
/// declaration or a text does not lie on character boundaries.
pub open spec fn symbol_at(nodes: Seq<SyntaxNode>, bytes: Seq<u8>, i: int) -> Option<SymbolView> {
    let node = nodes[i];
    match declared_kind(nodes, i) {
        None => None,
        Some(kind) => match field_child(nodes, i, "name"@) {
            None => None,
            Some(n) => {
                let name_node = nodes[n];
                match (slice_text(bytes, name_node.start_byte as int, name_node.end_byte as int),
                    slice_text(bytes, node.start_byte as int, node.end_byte as int)) {
                    (Some(name), Some(text)) => {
                        let len = encode_utf8(text).len() as int;
                        let body_start = match field_child(nodes, i, "body"@) {
                            Some(b) => sat_sub(nodes[b].start_byte, node.start_byte),
                            None => len,
                        };
                        let cut = if body_start < len { body_start } else { len };
                        match slice_text(encode_utf8(text), 0, cut) {
                            None => None,
                            Some(head) => Some((
                                name,
                                kind,
                                next_row(node.start_row),
                                name_node.start_column as int,
                                next_row(node.end_row),
                                normalized(head),
                                hex(sha256_of(encode_utf8(normalized(structural_text(
                                    text,
                                    sat_sub(name_node.start_byte, node.start_byte),
                                    sat_sub(name_node.end_byte, node.start_byte),
                                ))))),
                            )),
                        }
                    },
                    _ => None,
                }
            },
        },
    }
}

/// The declarations among the first `n` nodes, in document order.
pub open spec fn symbols_in(nodes: Seq<SyntaxNode>, bytes: Seq<u8>, n: int) -> Seq<SymbolView>
    decreases n,
{
    if n <= 0 {
        Seq::empty()
    } else {
        match symbol_at(nodes, bytes, n - 1) {
            Some(s) => symbols_in(nodes, bytes, n - 1).push(s),
            None => symbols_in(nodes, bytes, n - 1),
        }
    }
}

/// How many of the first `n` nodes are errors or missing nodes.
pub open spec fn error_count(nodes: Seq<SyntaxNode>, n: int) -> nat
    decreases n,
{
    if n <= 0 {
        0
    } else {
        error_count(nodes, n - 1) + if nodes[n - 1].is_error || nodes[n - 1].is_missing {
            1nat
        } else {
            0nat
        }
    }
}

fn kind_is(node: &SyntaxNode, kind: &str) -> (b: bool)
    ensures
        b == (node.kind@ == kind@),
{
    let owned = kind.to_owned();
    node.kind == owned
}

fn declared_kind_of(nodes: &Vec<SyntaxNode>, i: usize) -> (r: Option<SymbolKind>)
    requires
        i < nodes@.len(),
    ensures
        r == declared_kind(nodes@, i as int),
{
    let node = &nodes[i];
    if kind_is(node, "function_declaration") || kind_is(node, "generator_function_declaration") {
        Some(SymbolKind::Function)
    } else if kind_is(node, "method_definition") || kind_is(node, "method_signature") {
        Some(SymbolKind::Method)
    } else if kind_is(node, "class_declaration") {
        Some(SymbolKind::Class)
    } else if kind_is(node, "interface_declaration") {
        Some(SymbolKind::Interface)
    } else if kind_is(node, "type_alias_declaration") {
        Some(SymbolKind::Type)
    } else if kind_is(node, "enum_declaration") {
        Some(SymbolKind::Enum)
    } else if kind_is(node, "variable_declarator") {
        match child_by_field(nodes, i, "value") {
            Some(v) => if kind_is(&nodes[v], "arrow_function") || kind_is(&nodes[v], "function_expression") {
                Some(SymbolKind::Variable)
            } else {
                None
            },
            None => None,
        }
    } else {
        None
    }
}

fn next_row_of(row: usize) -> (r: usize)
    ensures
        r as int == next_row(row),
{
    if row < usize::MAX {
        row + 1
    } else {
        row
    }
}

fn structural_text_of(text: &str, name_start: usize, name_end: usize) -> (r: String)
    ensures
        r@ == structural_text(text@, name_start as int, name_end as int),
{
    let len = text.as_bytes().len();
    if name_start <= name_end {
        match (text_slice(text, 0, name_start), text_slice(text, name_end, len)) {
            (Some(head), Some(tail)) => {
                let mut r = head.to_owned();
                r.append("<symbol>");
                r.append(tail);
                return r;
            },
            _ => {},
        }
    }
    text.to_owned()
}

/// The declaration at node `i`, if it is one (see [`symbol_at`]).
pub fn symbol_from_node(nodes: &Vec<SyntaxNode>, i: usize, source: &str) -> (r: Option<FileSymbol>)
    requires
        i < nodes@.len(),
    ensures
        match r {
            Some(s) => symbol_at(nodes@, source.spec_bytes(), i as int) == Some(symbol_view_of(s)),
            None => symbol_at(nodes@, source.spec_bytes(), i as int) is None,
        },
{
    let kind = match declared_kind_of(nodes, i) {
        Some(k) => k,
        None => return None,
    };
    let n = match child_by_field(nodes, i, "name") {
        Some(n) => n,
        None => return None,
    };
    let node = &nodes[i];
    let name_node = &nodes[n];
    let name = match text_slice(source, name_node.start_byte, name_node.end_byte) {
        Some(t) => t,
        None => return None,
    };
    let text = match text_slice(source, node.start_byte, node.end_byte) {
        Some(t) => t,
        None => return None,
    };
    let len = text.as_bytes().len();
    let body_start = match child_by_field(nodes, i, "body") {
        Some(b) => nodes[b].start_byte.saturating_sub(node.start_byte),
        None => len,
    };
    let cut = if body_start < len { body_start } else { len };
    let head = match text_slice(text, 0, cut) {
        Some(h) => h,
        None => return None,
    };
    let signature = normalize_whitespace(head);
    let structural = structural_text_of(
        text,
        name_node.start_byte.saturating_sub(node.start_byte),
        name_node.end_byte.saturating_sub(node.start_byte),
    );
    let normal = normalize_whitespace(structural.as_str());
    let body_hash = digest(normal.as_str());
    Some(FileSymbol {
        name: name.to_owned(),
        kind,
        line: next_row_of(node.start_row),
        column: name_node.start_column,
        end_line: next_row_of(node.end_row),
        signature,
        body_hash,
    })
}

/// The declarations of a parsed source in document order, and how many of
/// its nodes are errors or missing.
pub fn symbols_from_syntax(nodes: &Vec<SyntaxNode>, source: &str) -> (r: (Vec<FileSymbol>, usize))
    ensures
        r.0@.map_values(|s: FileSymbol| symbol_view_of(s)) == symbols_in(nodes@, source.spec_bytes(), nodes@.len() as int),
        r.1 == error_count(nodes@, nodes@.len() as int),
{
    let mut symbols: Vec<FileSymbol> = Vec::new();
    let mut errors: usize = 0;
    let mut i: usize = 0;
    while i < nodes.len()
        invariant
            i <= nodes@.len(),
            symbols@.map_values(|s: FileSymbol| symbol_view_of(s)) == symbols_in(nodes@, source.spec_bytes(), i as int),
            errors == error_count(nodes@, i as int),
            errors <= i,
        decreases nodes@.len() - i,
    {
        if nodes[i].is_error || nodes[i].is_missing {
            errors = errors + 1;
        }
        let ghost before = symbols@;
        match symbol_from_node(nodes, i, source) {
            Some(s) => {
                symbols.push(s);
                assert(symbols@.map_values(|s: FileSymbol| symbol_view_of(s)) =~= before.map_values(
                    |s: FileSymbol| symbol_view_of(s),
                ).push(symbol_view_of(symbols@.last())));
            },
            None => {},
        }
        i = i + 1;
    }
    (symbols, errors)
}


/// The declarations and error count of one version of a file, given what
/// the parser returned for it: nothing to parse in an empty text, one error
/// when parsing failed.
pub open spec fn version_symbols(source: Seq<char>, parsed: Option<Seq<SyntaxNode>>) -> (Seq<SymbolView>, nat) {
    if source.len() == 0 {
        (Seq::empty(), 0)
    } else {
        match parsed {
            None => (Seq::empty(), 1),
            Some(nodes) => (
                symbols_in(nodes, encode_utf8(source), nodes.len() as int),
                error_count(nodes, nodes.len() as int),
            ),
        }
    }
}

pub open spec fn sat_add(a: nat, b: nat) -> nat {
    if a + b <= usize::MAX {
        a + b
    } else {
        usize::MAX as nat
    }
}

pub open spec fn nodes_view(n: Option<Vec<SyntaxNode>>) -> Option<Seq<SyntaxNode>> {
    match n {
        Some(v) => Some(v@),
        None => None,
    }
}

/// The grammar a TypeScript path is parsed with: TSX for `.tsx` files.
pub open spec fn typescript_grammar(path: Seq<char>) -> Grammar {
    if "tsx"@.len() < path.len() && path.skip(path.len() - 4) == ".tsx"@ {
        Grammar::Tsx
    } else {
        Grammar::TypeScript
    }
}

fn version_symbols_of(source: &String, parsed: Option<Vec<SyntaxNode>>) -> (r: (Vec<FileSymbol>, usize))
    ensures
        r.0@.map_values(|s: FileSymbol| symbol_view_of(s)) == version_symbols(source@, nodes_view(parsed)).0,
        r.1 == version_symbols(source@, nodes_view(parsed)).1,
{
    if source.as_str().is_empty() {
        let v: Vec<FileSymbol> = Vec::new();
        assert(v@.map_values(|s: FileSymbol| symbol_view_of(s)) =~= Seq::<SymbolView>::empty());
        return (v, 0);
    }
    match parsed {
        None => {
            let v: Vec<FileSymbol> = Vec::new();
            assert(v@.map_values(|s: FileSymbol| symbol_view_of(s)) =~= Seq::<SymbolView>::empty());
            (v, 1)
        },
        Some(nodes) => symbols_from_syntax(&nodes, source.as_str()),
    }
}

/// Whether `a` is the analysis of `diff` when its old and new versions
/// parse to `old_nodes` and `new_nodes` (`None`: no syntax tree): the new
/// version's declarations, the parse errors of both versions added without
/// overflow, and the changes from the old version's declarations to the new.
pub open spec fn analysis_holds(
    diff: FileDiff,
    old_nodes: Option<Seq<SyntaxNode>>,
    new_nodes: Option<Seq<SyntaxNode>>,
    a: FileSemanticAnalysis,
) -> bool {
    &&& a.symbols@.map_values(|s: FileSymbol| symbol_view_of(s)) == version_symbols(diff.new_content@, new_nodes).0
    &&& a.parse_errors == sat_add(version_symbols(diff.old_content@, old_nodes).1, version_symbols(diff.new_content@, new_nodes).1)
    &&& exists|old_symbols: Seq<FileSymbol>|
        #![trigger symbol_changes(old_symbols, a.symbols@)]
        old_symbols.map_values(|s: FileSymbol| symbol_view_of(s)) == version_symbols(diff.old_content@, old_nodes).0
            && change_views(a.changes@) == symbol_changes(old_symbols, a.symbols@)
}

/// The syntax of one version of a TypeScript file: none for empty
/// content, which is not parsed, otherwise what the parser gives.
pub open spec fn version_parsed(nodes: Option<Seq<SyntaxNode>>, content: Seq<char>, grammar: Grammar) -> bool {
    if content.len() == 0 {
        nodes is None
    } else {
        parsed_from(nodes, content, grammar)
    }
}

/// Whether `a` is the analysis of `diff`: empty for files that are not
/// TypeScript and for binary files, otherwise [`analysis_holds`] for the
/// syntax that the parser gives for each version (with the grammar of
/// [`typescript_grammar`]; none for an empty version).
pub open spec fn is_analysis_of(diff: FileDiff, a: FileSemanticAnalysis) -> bool {
    if !typescript_path(diff.filename@) || diff.is_binary {
        &&& a.symbols@.len() == 0
        &&& a.changes@.len() == 0
        &&& a.parse_errors == 0
    } else {
        exists|old_nodes: Option<Seq<SyntaxNode>>, new_nodes: Option<Seq<SyntaxNode>>|
            #[trigger] analysis_holds(diff, old_nodes, new_nodes, a)
                && version_parsed(old_nodes, diff.old_content@, typescript_grammar(diff.filename@))
                && version_parsed(new_nodes, diff.new_content@, typescript_grammar(diff.filename@))
    }
}

/// The analysis of a TypeScript diff from what the parser returned for its
/// two versions: the declarations of the new version, the changes from the
/// old one, and the errors of both (saturated at `usize::MAX`).
pub fn analysis_from_syntax(
    diff: &FileDiff,
    old_nodes: Option<Vec<SyntaxNode>>,
    new_nodes: Option<Vec<SyntaxNode>>,
) -> (a: FileSemanticAnalysis)
    ensures
        analysis_holds(*diff, nodes_view(old_nodes), nodes_view(new_nodes), a),
{
    let (old_symbols, old_errors) = version_symbols_of(&diff.old_content, old_nodes);
    let (new_symbols, new_errors) = version_symbols_of(&diff.new_content, new_nodes);
    let changes = compare_symbols(old_symbols.as_slice(), new_symbols.as_slice());
    let ghost os = old_symbols@;
    let a = FileSemanticAnalysis {
        changes,
        symbols: new_symbols,
        parse_errors: old_errors.saturating_add(new_errors),
    };
    assert(change_views(a.changes@) == symbol_changes(os, a.symbols@));
    a
}

/// The semantic analysis of a diff. Files that are not TypeScript, and
/// binary files, get an empty analysis. Otherwise both versions are parsed
/// with the TypeScript grammar (TSX for `.tsx` paths), and the result is
/// [`analysis_from_syntax`] of what the parser returned.
pub fn analyze_typescript(diff: &FileDiff) -> (a: FileSemanticAnalysis)
    ensures
        is_analysis_of(*diff, a),
{
    if !is_typescript_path(diff.filename.as_str()) || diff.is_binary {
        return FileSemanticAnalysis::default();
    }
    let grammar = if ends_with_tsx(&diff.filename) {
        Grammar::Tsx
    } else {
        Grammar::TypeScript
    };
    let old_nodes = if diff.old_content.as_str().is_empty() {
        None
    } else {
        parse_syntax(diff.old_content.as_str(), grammar)
    };
    let new_nodes = if diff.new_content.as_str().is_empty() {
        None
    } else {
        parse_syntax(diff.new_content.as_str(), grammar)
    };
    let ghost ov = nodes_view(old_nodes);
    let ghost nv = nodes_view(new_nodes);
    assert(grammar == typescript_grammar(diff.filename@));
    assert(version_parsed(ov, diff.old_content@, grammar));
    assert(version_parsed(nv, diff.new_content@, grammar));
    let a = analysis_from_syntax(diff, old_nodes, new_nodes);
    assert(analysis_holds(*diff, ov, nv, a));
    a
}

fn ends_with_tsx(path: &String) -> (b: bool)
    ensures
        b == ("tsx"@.len() < path@.len() && path@.skip(path@.len() - 4) == ".tsx"@),
{
    let cs = chars_of(path.as_str());
    let n = cs.len();
    proof {
        reveal_strlit("tsx");
        reveal_strlit(".tsx");
    }
    if n < 4 {
        return false;
    }
    let b = cs[n - 4] == '.' && cs[n - 3] == 't' && cs[n - 2] == 's' && cs[n - 1] == 'x';
    assert(b ==> cs@.skip(n - 4) =~= ".tsx"@);
    assert(cs@.skip(n - 4) =~= ".tsx"@ ==> b) by {
        if cs@.skip(n - 4) =~= ".tsx"@ {
            assert(cs@.skip(n - 4)[0] == cs@[n - 4]);
            assert(cs@.skip(n - 4)[1] == cs@[n - 3]);
            assert(cs@.skip(n - 4)[2] == cs@[n - 2]);
            assert(cs@.skip(n - 4)[3] == cs@[n - 1]);
        }
    }
    b
}

} // verus!
