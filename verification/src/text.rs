//! Character-sequence helpers shared by the modules that build strings.
use vstd::prelude::*;

verus! {

/// Appends one character to a string (`String::push`).
#[verifier::external_body]
pub(crate) fn push_char(s: &mut String, c: char)
    ensures
        final(s)@ == old(s)@.push(c),
{
    s.push(c);
}

/// The characters of a string slice, in order.
pub fn chars_of(s: &str) -> (v: Vec<char>)
    ensures
        v@ == s@,
{
    let mut v: Vec<char> = Vec::new();
    for c in it: s.chars()
        invariant
            v@ == it.seq().take(it.index() as int),
    {
        v.push(c);
    }
    v
}

/// The decimal digit character for `d < 10`.
pub open spec fn digit_char(d: nat) -> char {
    (48 + d) as char
}

/// The decimal representation of `n`, without leading zeros.
pub open spec fn decimal(n: nat) -> Seq<char>
    decreases n,
{
    if n < 10 {
        seq![digit_char(n)]
    } else {
        decimal(n / 10).push(digit_char(n % 10))
    }
}

fn digit(d: usize) -> (c: char)
    requires
        d < 10,
    ensures
        c == digit_char(d as nat),
{
    if d == 0 {
        '0'
    } else if d == 1 {
        '1'
    } else if d == 2 {
        '2'
    } else if d == 3 {
        '3'
    } else if d == 4 {
        '4'
    } else if d == 5 {
        '5'
    } else if d == 6 {
        '6'
    } else if d == 7 {
        '7'
    } else if d == 8 {
        '8'
    } else {
        '9'
    }
}

/// Appends the decimal representation of `n`.
pub fn push_decimal(s: &mut String, n: usize)
    ensures
        final(s)@ == old(s)@ + decimal(n as nat),
    decreases n,
{
    if n >= 10 {
        push_decimal(s, n / 10);
    }
    push_char(s, digit(n % 10));
    assert(old(s)@ + decimal(n as nat) =~= if n >= 10 {
        old(s)@ + decimal((n / 10) as nat) + seq![digit_char((n % 10) as nat)]
    } else {
        old(s)@ + seq![digit_char(n as nat)]
    });
}

/// The decimal representation of `n` as a new string.
pub fn decimal_string(n: usize) -> (s: String)
    ensures
        s@ == decimal(n as nat),
{
    let mut s = String::new();
    push_decimal(&mut s, n);
    assert(s@ =~= decimal(n as nat));
    s
}

/// Removes one trailing carriage return.
pub open spec fn strip_cr(line: Seq<char>) -> Seq<char> {
    if line.len() > 0 && line.last() == '\r' {
        line.drop_last()
    } else {
        line
    }
}

/// The lines of `s` as `str::lines` yields them: split after each `\n`,
/// the `\n` and one `\r` before it removed, and no empty last line after a
/// final `\n`. `current` is the text of the line being read.
pub open spec fn lines_from(s: Seq<char>, current: Seq<char>) -> Seq<Seq<char>>
    decreases s.len(),
{
    if s.len() == 0 {
        if current.len() == 0 {
            Seq::empty()
        } else {
            seq![current]
        }
    } else if s[0] == '\n' {
        seq![strip_cr(current)] + lines_from(s.drop_first(), Seq::empty())
    } else {
        lines_from(s.drop_first(), current.push(s[0]))
    }
}

pub open spec fn split_lines(s: Seq<char>) -> Seq<Seq<char>> {
    lines_from(s, Seq::empty())
}

/// The characters `chars[from..to]`.
pub fn copy_range(chars: &Vec<char>, from: usize, to: usize) -> (r: Vec<char>)
    requires
        from <= to <= chars@.len(),
    ensures
        r@ == chars@.subrange(from as int, to as int),
{
    let mut r: Vec<char> = Vec::new();
    let mut i = from;
    while i < to
        invariant
            from <= i <= to,
            to <= chars@.len(),
            r@ == chars@.subrange(from as int, i as int),
        decreases to - i,
    {
        r.push(chars[i]);
        assert(chars@.subrange(from as int, i + 1) =~= chars@.subrange(from as int, i as int).push(chars@[i as int]));
        i = i + 1;
    }
    r
}

/// Copies the characters `chars[from..to]` into a new string.
pub fn string_of(chars: &Vec<char>, from: usize, to: usize) -> (s: String)
    requires
        from <= to <= chars@.len(),
    ensures
        s@ == chars@.subrange(from as int, to as int),
{
    let mut s = String::new();
    let mut i = from;
    while i < to
        invariant
            from <= i <= to <= chars@.len(),
            s@ == chars@.subrange(from as int, i as int),
        decreases to - i,
    {
        push_char(&mut s, chars[i]);
        assert(chars@.subrange(from as int, i + 1) =~= chars@.subrange(from as int, i as int).push(
            chars@[i as int],
        ));
        i = i + 1;
    }
    s
}

/// The lines of `s`, as `str::lines` splits them.
pub fn lines_of(s: &str) -> (v: Vec<String>)
    ensures
        v@.len() == split_lines(s@).len(),
        forall|i: int| 0 <= i < v@.len() ==> #[trigger] v@[i]@ == split_lines(s@)[i],
{
    let chars = chars_of(s);
    let mut v: Vec<String> = Vec::new();
    let mut start: usize = 0;
    let mut i: usize = 0;
    assert(chars@.skip(0) =~= chars@);
    assert(chars@.subrange(0, 0) =~= Seq::<char>::empty());
    while i < chars.len()
        invariant
            chars@ == s@,
            start <= i <= chars@.len(),
            forall|k: int| start <= k < i ==> chars@[k] != '\n',
            v@.len() + lines_from(chars@.skip(i as int), chars@.subrange(start as int, i as int)).len()
                == split_lines(s@).len(),
            forall|k: int| 0 <= k < v@.len() ==> #[trigger] v@[k]@ == split_lines(s@)[k],
            forall|k: int|
                0 <= k < lines_from(chars@.skip(i as int), chars@.subrange(start as int, i as int)).len()
                    ==> split_lines(s@)[v@.len() + k] == #[trigger] lines_from(
                    chars@.skip(i as int),
                    chars@.subrange(start as int, i as int),
                )[k],
        decreases chars@.len() - i,
    {
        let ghost rest = chars@.skip(i as int);
        let ghost cur = chars@.subrange(start as int, i as int);
        assert(rest[0] == chars@[i as int]);
        assert(rest.drop_first() =~= chars@.skip(i + 1));
        if chars[i] == '\n' {
            let end = if i > start && chars[i - 1] == '\r' {
                i - 1
            } else {
                i
            };
            assert(chars@.subrange(start as int, end as int) =~= strip_cr(cur));
            let line = string_of(&chars, start, end);
            let ghost after = lines_from(chars@.skip(i + 1), Seq::empty());
            assert(lines_from(rest, cur) =~= seq![strip_cr(cur)] + after);
            assert(lines_from(rest, cur)[0] == strip_cr(cur));
            assert(split_lines(s@)[v@.len() as int] == lines_from(rest, cur)[0]);
            v.push(line);
            assert forall|k: int| 0 <= k < after.len() implies split_lines(s@)[v@.len() + k]
                == #[trigger] after[k] by {
                assert(lines_from(rest, cur)[k + 1] == after[k]);
            }
            assert(chars@.subrange(i + 1, i + 1) =~= Seq::<char>::empty());
            start = i + 1;
        } else {
            assert(cur.push(chars@[i as int]) =~= chars@.subrange(start as int, i + 1));
        }
        i = i + 1;
    }
    let ghost cur = chars@.subrange(start as int, i as int);
    assert(chars@.skip(i as int) =~= Seq::<char>::empty());
    if start < i {
        let line = string_of(&chars, start, i);
        assert(lines_from(chars@.skip(i as int), cur) =~= seq![cur]);
        assert(lines_from(chars@.skip(i as int), cur)[0] == cur);
        assert(split_lines(s@)[v@.len() as int] == cur);
        v.push(line);
    }
    v
}


/// The pieces of `s` between occurrences of `sep`, as `str::split` yields
/// them; `current` is the piece being read. There is always at least one.
pub open spec fn pieces_from(s: Seq<char>, sep: char, current: Seq<char>) -> Seq<Seq<char>>
    decreases s.len(),
{
    if s.len() == 0 {
        seq![current]
    } else if s[0] == sep {
        seq![current] + pieces_from(s.drop_first(), sep, Seq::empty())
    } else {
        pieces_from(s.drop_first(), sep, current.push(s[0]))
    }
}

pub open spec fn split_on(s: Seq<char>, sep: char) -> Seq<Seq<char>> {
    pieces_from(s, sep, Seq::empty())
}

proof fn lemma_pieces_nonempty(s: Seq<char>, sep: char, current: Seq<char>)
    ensures
        pieces_from(s, sep, current).len() >= 1,
    decreases s.len(),
{
    if s.len() > 0 {
        if s[0] == sep {
            lemma_pieces_nonempty(s.drop_first(), sep, Seq::empty());
        } else {
            lemma_pieces_nonempty(s.drop_first(), sep, current.push(s[0]));
        }
    }
}

/// The pieces of `s` between occurrences of `sep` (`str::split` with a
/// character), each as its characters.
pub fn split_chars(s: &str, sep: char) -> (v: Vec<Vec<char>>)
    ensures
        v@.len() == split_on(s@, sep).len(),
        forall|i: int| 0 <= i < v@.len() ==> #[trigger] v@[i]@ == split_on(s@, sep)[i],
{
    let chars = chars_of(s);
    let mut v: Vec<Vec<char>> = Vec::new();
    let mut current: Vec<char> = Vec::new();
    let mut i: usize = 0;
    assert(chars@.skip(0) =~= chars@);
    while i < chars.len()
        invariant
            chars@ == s@,
            i <= chars@.len(),
            v@.len() + pieces_from(chars@.skip(i as int), sep, current@).len() == split_on(s@, sep).len(),
            forall|k: int| 0 <= k < v@.len() ==> #[trigger] v@[k]@ == split_on(s@, sep)[k],
            forall|k: int|
                0 <= k < pieces_from(chars@.skip(i as int), sep, current@).len()
                    ==> split_on(s@, sep)[v@.len() + k] == #[trigger] pieces_from(
                    chars@.skip(i as int),
                    sep,
                    current@,
                )[k],
        decreases chars@.len() - i,
    {
        let ghost rest = chars@.skip(i as int);
        let ghost cur = current@;
        assert(rest[0] == chars@[i as int]);
        assert(rest.drop_first() =~= chars@.skip(i + 1));
        if chars[i] == sep {
            let ghost after = pieces_from(chars@.skip(i + 1), sep, Seq::empty());
            assert(pieces_from(rest, sep, cur) =~= seq![cur] + after);
            assert(pieces_from(rest, sep, cur)[0] == cur);
            v.push(current);
            current = Vec::new();
            assert(current@ =~= Seq::<char>::empty());
            assert forall|k: int| 0 <= k < after.len() implies split_on(s@, sep)[v@.len() + k]
                == #[trigger] after[k] by {
                assert(pieces_from(rest, sep, cur)[k + 1] == after[k]);
            }
        } else {
            current.push(chars[i]);
        }
        i = i + 1;
    }
    assert(chars@.skip(i as int) =~= Seq::<char>::empty());
    assert(pieces_from(chars@.skip(i as int), sep, current@) =~= seq![current@]);
    assert(pieces_from(chars@.skip(i as int), sep, current@)[0] == current@);
    v.push(current);
    v
}

} // verus!
