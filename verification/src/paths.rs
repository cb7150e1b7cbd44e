//! The file name and extension of a `/`-separated path, as `std::path::Path`
//! reads them on Unix.
use vstd::prelude::*;
use crate::text::{split_chars, split_on};

verus! {

/// A path component that names something: not empty (from a doubled or
/// trailing `/`) and not `.`.
pub open spec fn is_named_part(part: Seq<char>) -> bool {
    part.len() > 0 && part != seq!['.']
}

/// Index of the last named part among the first `n` parts, if any.
pub open spec fn last_named(parts: Seq<Seq<char>>, n: int) -> Option<int>
    decreases n,
{
    if n <= 0 {
        None
    } else if is_named_part(parts[n - 1]) {
        Some(n - 1)
    } else {
        last_named(parts, n - 1)
    }
}

/// `Path::file_name`: the last component, unless there is none or it is `..`.
pub open spec fn file_name(path: Seq<char>) -> Option<Seq<char>> {
    let parts = split_on(path, '/');
    match last_named(parts, parts.len() as int) {
        Some(i) => if parts[i] == seq!['.', '.'] {
            None
        } else {
            Some(parts[i])
        },
        None => None,
    }
}

/// Index of the last `.` among the first `n` characters, if any.
pub open spec fn last_dot(name: Seq<char>, n: int) -> Option<int>
    decreases n,
{
    if n <= 0 {
        None
    } else if name[n - 1] == '.' {
        Some(n - 1)
    } else {
        last_dot(name, n - 1)
    }
}

/// The extension of a file name: what follows its last `.`, when that dot
/// is not the first character.
pub open spec fn name_extension(name: Seq<char>) -> Option<Seq<char>> {
    match last_dot(name, name.len() as int) {
        Some(i) => if i > 0 {
            Some(name.skip(i + 1))
        } else {
            None
        },
        None => None,
    }
}

/// `Path::extension`.
pub open spec fn extension(path: Seq<char>) -> Option<Seq<char>> {
    match file_name(path) {
        Some(name) => name_extension(name),
        None => None,
    }
}

proof fn lemma_last_named_bound(parts: Seq<Seq<char>>, n: int)
    requires
        n <= parts.len(),
    ensures
        last_named(parts, n) matches Some(i) ==> 0 <= i < n && is_named_part(parts[i]),
    decreases n,
{
    if n > 0 && !is_named_part(parts[n - 1]) {
        lemma_last_named_bound(parts, n - 1);
    }
}

proof fn lemma_last_dot_bound(name: Seq<char>, n: int)
    requires
        n <= name.len(),
    ensures
        last_dot(name, n) matches Some(i) ==> 0 <= i < n && name[i] == '.',
    decreases n,
{
    if n > 0 && name[n - 1] != '.' {
        lemma_last_dot_bound(name, n - 1);
    }
}

fn is_dot_dot(part: &Vec<char>) -> (b: bool)
    ensures
        b == (part@ == seq!['.', '.']),
{
    let b = part.len() == 2 && part[0] == '.' && part[1] == '.';
    assert(b ==> part@ =~= seq!['.', '.']);
    b
}

fn is_named(part: &Vec<char>) -> (b: bool)
    ensures
        b == is_named_part(part@),
{
    let b = part.len() > 0 && !(part.len() == 1 && part[0] == '.');
    assert(part@.len() == 1 && part@[0] == '.' ==> part@ =~= seq!['.']);
    b
}

/// The file name of `path`, as its characters.
pub fn file_name_of(path: &str) -> (r: Option<Vec<char>>)
    ensures
        match r {
            Some(v) => file_name(path@) == Some(v@),
            None => file_name(path@) is None,
        },
{
    let mut parts = split_chars(path, '/');
    let ghost ps = split_on(path@, '/');
    let mut n = parts.len();
    while n > 0 && !is_named(&parts[n - 1])
        invariant
            n <= parts@.len(),
            parts@.len() == ps.len(),
            forall|i: int| 0 <= i < parts@.len() ==> #[trigger] parts@[i]@ == ps[i],
            last_named(ps, ps.len() as int) == last_named(ps, n as int),
        decreases n,
    {
        n = n - 1;
    }
    if n == 0 {
        return None;
    }
    let last = parts.swap_remove(n - 1);
    if is_dot_dot(&last) {
        None
    } else {
        Some(last)
    }
}

/// The extension of the file name `name`, as its characters.
pub fn name_extension_of(name: &Vec<char>) -> (r: Option<Vec<char>>)
    ensures
        match r {
            Some(v) => name_extension(name@) == Some(v@),
            None => name_extension(name@) is None,
        },
{
    let mut n = name.len();
    while n > 0 && name[n - 1] != '.'
        invariant
            n <= name@.len(),
            last_dot(name@, name@.len() as int) == last_dot(name@, n as int),
        decreases n,
    {
        n = n - 1;
    }
    if n <= 1 {
        return None;
    }
    let mut ext: Vec<char> = Vec::new();
    let mut i = n;
    while i < name.len()
        invariant
            n <= i <= name@.len(),
            ext@ == name@.subrange(n as int, i as int),
        decreases name@.len() - i,
    {
        ext.push(name[i]);
        assert(name@.subrange(n as int, i + 1) =~= name@.subrange(n as int, i as int).push(name@[i as int]));
        i = i + 1;
    }
    assert(name@.skip(n as int) =~= name@.subrange(n as int, name@.len() as int));
    Some(ext)
}

/// The extension of `path`, as its characters.
pub fn extension_of(path: &str) -> (r: Option<Vec<char>>)
    ensures
        match r {
            Some(v) => extension(path@) == Some(v@),
            None => extension(path@) is None,
        },
{
    match file_name_of(path) {
        Some(name) => name_extension_of(&name),
        None => None,
    }
}

/// Whether the characters `v` spell the text `s`.
pub fn chars_are(v: &Vec<char>, s: &str) -> (b: bool)
    ensures
        b == (v@ == s@),
{
    let t = crate::text::chars_of(s);
    if v.len() != t.len() {
        return false;
    }
    let mut i: usize = 0;
    while i < v.len()
        invariant
            v@.len() == t@.len(),
            t@ == s@,
            i <= v@.len(),
            forall|k: int| 0 <= k < i ==> v@[k] == t@[k],
        decreases v@.len() - i,
    {
        if v[i] != t[i] {
            return false;
        }
        i = i + 1;
    }
    assert(v@ =~= t@);
    true
}

} // verus!
