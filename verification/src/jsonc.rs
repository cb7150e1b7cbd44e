//! Configuration files written as JSON with comments and trailing commas
//! (`tsconfig.json`, `jsconfig.json`): comments are blanked out and
//! trailing commas dropped, strings left untouched, before the text is
//! read as JSON.
use vstd::prelude::*;
use vstd::string::StringSliceAdditionalSpecFns;
use crate::resolve::JsonValue;

verus! {

/// Where a string whose contents start at `i` ends: after its closing
/// quote, skipping escaped characters; past the end when unterminated.
pub open spec fn string_end(b: Seq<u8>, i: int) -> int
    decreases b.len() + 2 - i,
{
    if i < 0 || i >= b.len() {
        i
    } else if b[i] == 92u8 {
        string_end(b, i + 2)
    } else if b[i] == 34u8 {
        i + 1
    } else {
        string_end(b, i + 1)
    }
}

/// The first line break at or after `i`, or the end.
pub open spec fn line_break_at(b: Seq<u8>, i: int) -> int
    decreases b.len() - i,
{
    if i < 0 || i >= b.len() || b[i] == 10u8 {
        if i >= b.len() { b.len() as int } else { i }
    } else {
        line_break_at(b, i + 1)
    }
}

/// Whether a `*/` starts at `i`.
pub open spec fn closes_at(b: Seq<u8>, i: int) -> bool {
    i + 1 < b.len() && b[i] == 42u8 && b[i + 1] == 47u8
}

/// The first `*/` at or after `i`, or the end.
pub open spec fn close_at(b: Seq<u8>, i: int) -> int
    decreases b.len() - i,
{
    if i < 0 || i >= b.len() || closes_at(b, i) {
        if i >= b.len() { b.len() as int } else { i }
    } else {
        close_at(b, i + 1)
    }
}

/// `n` spaces.
pub open spec fn spaces(n: int) -> Seq<u8> {
    Seq::new(if n > 0 { n as nat } else { 0 }, |k: int| 32u8)
}

/// The bytes from `i` on with comments blanked; `None` when a block
/// comment is not closed.
pub open spec fn blank_comments(b: Seq<u8>, i: int) -> Option<Seq<u8>>
    decreases b.len() - i,
{
    if i < 0 || i >= b.len() {
        Some(Seq::empty())
    } else if b[i] == 34u8 {
        let j = if string_end(b, i + 1) <= b.len() { string_end(b, i + 1) } else { b.len() as int };
        proof {
            lemma_string_end(b, i + 1);
        }
        match blank_comments(b, j) {
            Some(rest) => Some(b.subrange(i, j) + rest),
            None => None,
        }
    } else if i + 1 < b.len() && b[i] == 47u8 && b[i + 1] == 47u8 {
        let j = line_break_at(b, i);
        proof {
            lemma_line_break(b, i);
        }
        match blank_comments(b, j) {
            Some(rest) => Some(spaces(j - i) + rest),
            None => None,
        }
    } else if i + 1 < b.len() && b[i] == 47u8 && b[i + 1] == 42u8 {
        let j = close_at(b, i + 2);
        proof {
            lemma_close(b, i + 2);
        }
        if j + 1 >= b.len() {
            None
        } else {
            match blank_comments(b, j + 2) {
                Some(rest) => Some(spaces(j + 2 - i) + rest),
                None => None,
            }
        }
    } else {
        match blank_comments(b, i + 1) {
            Some(rest) => Some(seq![b[i]] + rest),
            None => None,
        }
    }
}

/// ASCII whitespace as `u8::is_ascii_whitespace` has it.
pub open spec fn ascii_space(c: u8) -> bool {
    c == 32u8 || c == 9u8 || c == 10u8 || c == 12u8 || c == 13u8
}

/// The first byte at or after `i` that is not ASCII whitespace.
pub open spec fn next_solid(b: Seq<u8>, i: int) -> Option<u8>
    decreases b.len() - i,
{
    if i < 0 || i >= b.len() {
        None
    } else if ascii_space(b[i]) {
        next_solid(b, i + 1)
    } else {
        Some(b[i])
    }
}

/// The bytes from `i` on with each comma that closes a list or object
/// (only whitespace before the `}` or `]`) blanked, strings untouched.
pub open spec fn blank_trailing_commas(b: Seq<u8>, i: int) -> Seq<u8>
    decreases b.len() - i,
{
    if i < 0 || i >= b.len() {
        Seq::empty()
    } else if b[i] == 34u8 {
        let j = if string_end(b, i + 1) <= b.len() { string_end(b, i + 1) } else { b.len() as int };
        proof {
            lemma_string_end(b, i + 1);
        }
        b.subrange(i, j) + blank_trailing_commas(b, j)
    } else if b[i] == 44u8 && (next_solid(b, i + 1) == Some(125u8) || next_solid(b, i + 1) == Some(93u8)) {
        seq![32u8] + blank_trailing_commas(b, i + 1)
    } else {
        seq![b[i]] + blank_trailing_commas(b, i + 1)
    }
}

/// The JSON text of a configuration: comments and trailing commas blanked;
/// `None` when a block comment is not closed.
pub open spec fn plain_json(b: Seq<u8>) -> Option<Seq<u8>> {
    match blank_comments(b, 0) {
        Some(c) => Some(blank_trailing_commas(c, 0)),
        None => None,
    }
}

/// A string ends after it starts, at most one byte past the text.
pub proof fn lemma_string_end(b: Seq<u8>, i: int)
    ensures
        i <= string_end(b, i),
        0 <= i <= b.len() ==> string_end(b, i) <= b.len() + 1,
    decreases b.len() + 2 - i,
{
    if 0 <= i < b.len() {
        if b[i] == 92u8 {
            lemma_string_end(b, i + 2);
        } else if b[i] != 34u8 {
            lemma_string_end(b, i + 1);
        }
    }
}

/// The line break found is at or after where the search starts.
pub proof fn lemma_line_break(b: Seq<u8>, i: int)
    requires
        0 <= i,
    ensures
        i <= b.len() ==> i <= line_break_at(b, i) <= b.len(),
        i < b.len() && b[i] != 10u8 ==> i < line_break_at(b, i),
    decreases b.len() - i,
{
    if i < b.len() && b[i] != 10u8 {
        lemma_line_break(b, i + 1);
    }
}

/// The `*/` found is at or after where the search starts.
pub proof fn lemma_close(b: Seq<u8>, i: int)
    requires
        0 <= i,
    ensures
        i <= b.len() ==> i <= close_at(b, i) <= b.len(),
        close_at(b, i) + 1 < b.len() ==> closes_at(b, close_at(b, i)),
    decreases b.len() - i,
{
    if i < b.len() && !closes_at(b, i) {
        lemma_close(b, i + 1);
    }
}

/// Where the string whose contents start at `i` ends, at most the end.
fn string_end_of(b: &Vec<u8>, i: usize) -> (j: usize)
    requires
        i <= b@.len(),
    ensures
        j == (if string_end(b@, i as int) <= b@.len() { string_end(b@, i as int) } else { b@.len() as int }),
{
    let mut k = i;
    proof {
        lemma_string_end(b@, i as int);
    }
    while k < b.len()
        invariant
            i <= k <= b@.len(),
            string_end(b@, i as int) == string_end(b@, k as int),
        decreases b@.len() - k,
    {
        if b[k] == 92u8 {
            if b.len() - k < 2 {
                proof {
                    lemma_string_end(b@, k + 2);
                }
                return b.len();
            }
            k = k + 2;
        } else if b[k] == 34u8 {
            return k + 1;
        } else {
            k = k + 1;
        }
    }
    k
}


/// The prefix put before what an optional remainder holds.
pub open spec fn after(prefix: Seq<u8>, rest: Option<Seq<u8>>) -> Option<Seq<u8>> {
    match rest {
        Some(r) => Some(prefix + r),
        None => None,
    }
}

fn push_range(out: &mut Vec<u8>, b: &Vec<u8>, from: usize, to: usize)
    requires
        from <= to <= b@.len(),
    ensures
        final(out)@ == old(out)@ + b@.subrange(from as int, to as int),
{
    let mut k = from;
    while k < to
        invariant
            from <= k <= to <= b@.len(),
            out@ == old(out)@ + b@.subrange(from as int, k as int),
        decreases to - k,
    {
        out.push(b[k]);
        assert(b@.subrange(from as int, k + 1) =~= b@.subrange(from as int, k as int).push(b@[k as int]));
        k = k + 1;
    }
}

fn push_spaces(out: &mut Vec<u8>, n: usize)
    ensures
        final(out)@ == old(out)@ + spaces(n as int),
{
    let mut k: usize = 0;
    while k < n
        invariant
            k <= n,
            out@ == old(out)@ + spaces(k as int),
        decreases n - k,
    {
        out.push(32u8);
        assert(spaces(k + 1) =~= spaces(k as int).push(32u8));
        k = k + 1;
    }
}

/// The text with comments blanked; `None` when a block comment is not
/// closed.
fn blank_comments_of(b: &Vec<u8>) -> (r: Option<Vec<u8>>)
    ensures
        match r {
            Some(v) => blank_comments(b@, 0) == Some(v@),
            None => blank_comments(b@, 0) is None,
        },
{
    let mut out: Vec<u8> = Vec::new();
    let mut i: usize = 0;
    assert(after(out@, blank_comments(b@, 0)) =~= blank_comments(b@, 0)) by {
        match blank_comments(b@, 0) {
            Some(r) => {
                assert(out@ + r =~= r);
            },
            None => {},
        }
    }
    while i < b.len()
        invariant
            i <= b@.len(),
            blank_comments(b@, 0) == after(out@, blank_comments(b@, i as int)),
        decreases b@.len() - i,
    {
        let ghost o0 = out@;
        if b[i] == 34u8 {
            let j = string_end_of(b, i + 1);
            proof {
                lemma_string_end(b@, i + 1);
            }
            push_range(&mut out, b, i, j);
            assert(after(o0, blank_comments(b@, i as int)) =~= after(out@, blank_comments(b@, j as int))) by {
                match blank_comments(b@, j as int) {
                    Some(r) => {
                        assert(o0 + (b@.subrange(i as int, j as int) + r) =~= out@ + r);
                    },
                    None => {},
                }
            }
            i = j;
        } else if i + 1 < b.len() && b[i] == 47u8 && b[i + 1] == 47u8 {
            let mut j = i;
            while j < b.len() && b[j] != 10u8
                invariant
                    i <= j <= b@.len(),
                    line_break_at(b@, i as int) == line_break_at(b@, j as int),
                decreases b@.len() - j,
            {
                j = j + 1;
            }
            proof {
                lemma_line_break(b@, i as int);
            }
            push_spaces(&mut out, j - i);
            assert(after(o0, blank_comments(b@, i as int)) =~= after(out@, blank_comments(b@, j as int))) by {
                match blank_comments(b@, j as int) {
                    Some(r) => {
                        assert(o0 + (spaces(j - i) + r) =~= out@ + r);
                    },
                    None => {},
                }
            }
            i = j;
        } else if i + 1 < b.len() && b[i] == 47u8 && b[i + 1] == 42u8 {
            let mut j = i + 2;
            while j < b.len() && !(j + 1 < b.len() && b[j] == 42u8 && b[j + 1] == 47u8)
                invariant
                    i + 2 <= j <= b@.len(),
                    close_at(b@, i + 2) == close_at(b@, j as int),
                decreases b@.len() - j,
            {
                j = j + 1;
            }
            proof {
                lemma_close(b@, i + 2);
            }
            if b.len() - j <= 1 {
                return None;
            }
            push_spaces(&mut out, j + 2 - i);
            assert(after(o0, blank_comments(b@, i as int)) =~= after(out@, blank_comments(b@, j + 2))) by {
                match blank_comments(b@, j + 2) {
                    Some(r) => {
                        assert(o0 + (spaces(j + 2 - i) + r) =~= out@ + r);
                    },
                    None => {},
                }
            }
            i = j + 2;
        } else {
            out.push(b[i]);
            assert(after(o0, blank_comments(b@, i as int)) =~= after(out@, blank_comments(b@, i + 1))) by {
                match blank_comments(b@, i + 1) {
                    Some(r) => {
                        assert(o0 + (seq![b@[i as int]] + r) =~= out@ + r);
                    },
                    None => {},
                }
            }
            i = i + 1;
        }
    }
    assert(after(out@, blank_comments(b@, i as int)) =~= Some(out@)) by {
        assert(out@ + Seq::<u8>::empty() =~= out@);
    }
    Some(out)
}

/// The first byte at or after `i` that is not ASCII whitespace.
fn next_solid_of(b: &Vec<u8>, i: usize) -> (r: Option<u8>)
    requires
        i <= b@.len(),
    ensures
        r == next_solid(b@, i as int),
{
    let mut k = i;
    while k < b.len()
        invariant
            i <= k <= b@.len(),
            next_solid(b@, i as int) == next_solid(b@, k as int),
        decreases b@.len() - k,
    {
        let c = b[k];
        if !(c == 32u8 || c == 9u8 || c == 10u8 || c == 12u8 || c == 13u8) {
            return Some(c);
        }
        k = k + 1;
    }
    None
}

/// The text with trailing commas blanked.
fn blank_trailing_commas_of(b: &Vec<u8>) -> (r: Vec<u8>)
    ensures
        r@ == blank_trailing_commas(b@, 0),
{
    let mut out: Vec<u8> = Vec::new();
    let mut i: usize = 0;
    assert(out@ + blank_trailing_commas(b@, 0) =~= blank_trailing_commas(b@, 0));
    while i < b.len()
        invariant
            i <= b@.len(),
            blank_trailing_commas(b@, 0) == out@ + blank_trailing_commas(b@, i as int),
        decreases b@.len() - i,
    {
        let ghost o0 = out@;
        if b[i] == 34u8 {
            let j = string_end_of(b, i + 1);
            proof {
                lemma_string_end(b@, i + 1);
            }
            push_range(&mut out, b, i, j);
            assert(o0 + blank_trailing_commas(b@, i as int) =~= out@ + blank_trailing_commas(b@, j as int));
            i = j;
        } else {
            let closing = if b[i] == 44u8 {
                let n = next_solid_of(b, i + 1);
                n == Some(125u8) || n == Some(93u8)
            } else {
                false
            };
            if closing {
                out.push(32u8);
            } else {
                out.push(b[i]);
            }
            assert(o0 + blank_trailing_commas(b@, i as int) =~= out@ + blank_trailing_commas(b@, i + 1));
            i = i + 1;
        }
    }
    assert(out@ + blank_trailing_commas(b@, i as int) =~= out@);
    out
}

/// The JSON text of a configuration written with comments and trailing
/// commas: see [`plain_json`].
pub fn plain_json_of(source: &str) -> (r: Option<Vec<u8>>)
    ensures
        match r {
            Some(v) => plain_json(source.spec_bytes()) == Some(v@),
            None => plain_json(source.spec_bytes()) is None,
        },
{
    let mut bytes: Vec<u8> = Vec::new();
    let src = source.as_bytes();
    let mut k: usize = 0;
    while k < src.len()
        invariant
            k <= src@.len(),
            src@ == source.spec_bytes(),
            bytes@ == src@.take(k as int),
        decreases src@.len() - k,
    {
        bytes.push(src[k]);
        assert(src@.take(k + 1) =~= src@.take(k as int).push(src@[k as int]));
        k = k + 1;
    }
    assert(src@.take(src@.len() as int) =~= src@);
    match blank_comments_of(&bytes) {
        Some(c) => Some(blank_trailing_commas_of(&c)),
        None => None,
    }
}

#[verifier::external_type_specification]
#[verifier::external_body]
pub struct ExJsonValue(serde_json::Value);

/// What `serde_json::from_slice` reads from `bytes`, as the library's JSON
/// value: `None` when the bytes are not one JSON value.
pub uninterp spec fn json_value_of(bytes: Seq<u8>) -> Option<JsonValue>;

/// A `serde_json::Value` as the library's JSON value, variant by variant:
/// numbers by their text, objects with their members in the map's (key)
/// order. Only [`parse_json`] uses it, on the value it has just read.
#[verifier::external_body]
fn json_of(value: serde_json::Value) -> JsonValue {
    match value {
        serde_json::Value::Null => JsonValue::Null,
        serde_json::Value::Bool(b) => JsonValue::Bool(b),
        serde_json::Value::Number(n) => JsonValue::Number(n.to_string()),
        serde_json::Value::String(t) => JsonValue::Text(t),
        serde_json::Value::Array(items) => JsonValue::Array(items.into_iter().map(json_of).collect()),
        serde_json::Value::Object(map) => JsonValue::Object(map.into_iter().map(|(k, v)| (k, json_of(v))).collect()),
    }
}

/// `serde_json::from_slice` into a `serde_json::Value`, converted to the
/// library's JSON value: the value named by `json_value_of` for these bytes.
#[verifier::external_body]
fn parse_json(bytes: &[u8]) -> (r: Option<JsonValue>)
    ensures
        r == json_value_of(bytes@),
{
    serde_json::from_slice(bytes).ok().map(json_of)
}

/// The JSON value of a configuration file's text, if any: comments and
/// trailing commas dropped, then read as JSON.
pub open spec fn config_value(source: Seq<u8>) -> Option<JsonValue> {
    match plain_json(source) {
        Some(text) => json_value_of(text),
        None => None,
    }
}

/// A configuration file's JSON value: comments and trailing commas
/// dropped, then read as JSON; `None` when a block comment is not closed
/// or the rest is not JSON.
pub fn json_config(source: &str) -> (r: Option<JsonValue>)
    ensures
        r == config_value(source.spec_bytes()),
{
    match plain_json_of(source) {
        Some(text) => parse_json(text.as_slice()),
        None => None,
    }
}
} // verus!
