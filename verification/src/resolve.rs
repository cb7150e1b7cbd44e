//! Import resolution inside a repository: joining relative paths, package
//! entry points and compiler path aliases. Only paths that the compared
//! files themselves show are resolved, never global names.
use vstd::prelude::*;
use vstd::string::StringExecFns;
use crate::text::{chars_of, push_char, split_chars, split_on, string_of};

verus! {

/// The components that a path walk keeps: `..` removes the last one (and
/// fails when there is none), `.` and empty parts are skipped, any other part
/// is appended. `None` when a `..` climbs above the start.
pub open spec fn walk(parts: Seq<Seq<char>>, n: int) -> Option<Seq<Seq<char>>>
    decreases n,
{
    if n <= 0 {
        Some(Seq::empty())
    } else {
        match walk(parts, n - 1) {
            None => None,
            Some(kept) => {
                let part = parts[n - 1];
                if part == seq!['.', '.'] {
                    if kept.len() == 0 {
                        None
                    } else {
                        Some(kept.drop_last())
                    }
                } else if part.len() == 0 || part == seq!['.'] {
                    Some(kept)
                } else {
                    Some(kept.push(part))
                }
            },
        }
    }
}

proof fn lemma_walk_none(parts: Seq<Seq<char>>, k: int, n: int)
    requires
        walk(parts, k) is None,
        k <= n,
    ensures
        walk(parts, n) is None,
    decreases n - k,
{
    if k < n {
        lemma_walk_none(parts, k, n - 1);
    }
}

/// Components joined by `/`.
pub open spec fn join_parts(parts: Seq<Seq<char>>) -> Seq<char>
    decreases parts.len(),
{
    if parts.len() == 0 {
        Seq::empty()
    } else if parts.len() == 1 {
        parts[0]
    } else {
        join_parts(parts.drop_last()) + seq!['/'] + parts.last()
    }
}

/// `path` resolved against the directory `base`: `None` when either is
/// absolute or when the path climbs above the repository root.
pub open spec fn joined(base: Seq<char>, path: Seq<char>) -> Option<Seq<char>> {
    if (base.len() > 0 && base[0] == '/') || (path.len() > 0 && path[0] == '/') {
        None
    } else {
        let parts = split_on(base, '/') + split_on(path, '/');
        match walk(parts, parts.len() as int) {
            Some(kept) => Some(join_parts(kept)),
            None => None,
        }
    }
}

fn is_parent(part: &Vec<char>) -> (b: bool)
    ensures
        b == (part@ == seq!['.', '.']),
{
    let b = part.len() == 2 && part[0] == '.' && part[1] == '.';
    assert(b ==> part@ =~= seq!['.', '.']);
    b
}

fn is_skipped(part: &Vec<char>) -> (b: bool)
    ensures
        b == (part@.len() == 0 || part@ == seq!['.']),
{
    let b = part.len() == 0 || (part.len() == 1 && part[0] == '.');
    assert(part@.len() == 1 && part@[0] == '.' ==> part@ =~= seq!['.']);
    b
}

fn starts_with_slash(s: &str) -> (b: bool)
    ensures
        b == (s@.len() > 0 && s@[0] == '/'),
{
    let cs = chars_of(s);
    cs.len() > 0 && cs[0] == '/'
}

/// Resolves `path` against the directory `base`.
pub fn join(base: &str, path: &str) -> (r: Option<String>)
    ensures
        match r {
            Some(s) => joined(base@, path@) == Some(s@),
            None => joined(base@, path@) is None,
        },
{
    if starts_with_slash(base) || starts_with_slash(path) {
        return None;
    }
    let mut parts = split_chars(base, '/');
    let rest = split_chars(path, '/');
    let ghost all = split_on(base@, '/') + split_on(path@, '/');
    let mut i: usize = 0;
    let ghost base_len = parts@.len();
    while i < rest.len()
        invariant
            i <= rest@.len(),
            parts@.len() == base_len + i,
            base_len == split_on(base@, '/').len(),
            rest@.len() == split_on(path@, '/').len(),
            all == split_on(base@, '/') + split_on(path@, '/'),
            all.len() == base_len + rest@.len(),
            forall|k: int| 0 <= k < rest@.len() ==> #[trigger] rest@[k]@ == split_on(path@, '/')[k],
            forall|k: int| 0 <= k < parts@.len() ==> #[trigger] parts@[k]@ == all[k],
        decreases rest@.len() - i,
    {
        let ghost prev = parts@;
        parts.push(rest[i].clone());
        assert(parts@[parts@.len() - 1]@ =~= rest@[i as int]@);
        assert(all[base_len + i] == split_on(path@, '/')[i as int]);
        assert forall|k: int| 0 <= k < parts@.len() implies #[trigger] parts@[k]@ == all[k] by {
            if k < prev.len() {
                assert(parts@[k] == prev[k]);
            }
        }
        i = i + 1;
    }
    let mut kept: Vec<Vec<char>> = Vec::new();
    let mut k: usize = 0;
    while k < parts.len()
        invariant
            k <= parts@.len(),
            parts@.len() == all.len(),
            all == split_on(base@, '/') + split_on(path@, '/'),
            !(base@.len() > 0 && base@[0] == '/'),
            !(path@.len() > 0 && path@[0] == '/'),
            forall|t: int| 0 <= t < parts@.len() ==> #[trigger] parts@[t]@ == all[t],
            walk(all, k as int) == Some(kept@.map_values(|p: Vec<char>| p@)),
        decreases parts@.len() - k,
    {
        let ghost before = kept@.map_values(|p: Vec<char>| p@);
        if is_parent(&parts[k]) {
            if kept.len() == 0 {
                proof {
                    assert(walk(all, k + 1) is None);
                    lemma_walk_none(all, k + 1, all.len() as int);
                }
                return None;
            }
            kept.pop();
            assert(kept@.map_values(|p: Vec<char>| p@) =~= before.drop_last());
        } else if !is_skipped(&parts[k]) {
            kept.push(parts[k].clone());
            assert(kept@[kept@.len() - 1]@ =~= parts@[k as int]@);
            assert(kept@.map_values(|p: Vec<char>| p@) =~= before.push(all[k as int]));
        }
        k = k + 1;
    }
    let mut out = String::new();
    let mut t: usize = 0;
    let ghost views = kept@.map_values(|p: Vec<char>| p@);
    while t < kept.len()
        invariant
            t <= kept@.len(),
            views == kept@.map_values(|p: Vec<char>| p@),
            out@ == join_parts(views.take(t as int)),
        decreases kept@.len() - t,
    {
        let ghost prev = out@;
        if t > 0 {
            push_char(&mut out, '/');
        }
        let piece = string_of(&kept[t], 0, kept[t].len());
        out.append(piece.as_str());
        proof {
            assert(kept@[t as int]@.subrange(0, kept@[t as int]@.len() as int) =~= kept@[t as int]@);
            assert(views.take(t + 1).drop_last() =~= views.take(t as int));
            assert(views[t as int] == kept@[t as int]@);
            if t == 0 {
                assert(views.take(1) =~= seq![views[0]]);
            }
        }
        assert(out@ =~= join_parts(views.take(t + 1)));
        t = t + 1;
    }
    assert(views.take(kept@.len() as int) =~= views);
    assert(parts@.len() == all.len());
    Some(out)
}

/// Index of the last `/` among the first `n` characters, if any.
pub open spec fn last_slash(s: Seq<char>, n: int) -> Option<int>
    decreases n,
{
    if n <= 0 {
        None
    } else if s[n - 1] == '/' {
        Some(n - 1)
    } else {
        last_slash(s, n - 1)
    }
}

/// The directory of a path: what precedes its last `/`, or nothing.
pub open spec fn directory_of(path: Seq<char>) -> Seq<char> {
    match last_slash(path, path.len() as int) {
        Some(i) => path.take(i),
        None => Seq::empty(),
    }
}

proof fn lemma_last_slash_bound(s: Seq<char>, n: int)
    requires
        n <= s.len(),
    ensures
        last_slash(s, n) matches Some(i) ==> 0 <= i < n,
    decreases n,
{
    if n > 0 && s[n - 1] != '/' {
        lemma_last_slash_bound(s, n - 1);
    }
}

pub fn directory(path: &str) -> (d: String)
    ensures
        d@ == directory_of(path@),
{
    let cs = chars_of(path);
    let mut n = cs.len();
    while n > 0 && cs[n - 1] != '/'
        invariant
            n <= cs@.len(),
            cs@ == path@,
            last_slash(cs@, cs@.len() as int) == last_slash(cs@, n as int),
        decreases n,
    {
        n = n - 1;
    }
    if n == 0 {
        return String::new();
    }
    assert(cs@.subrange(0, n - 1) =~= cs@.take(n - 1));
    string_of(&cs, 0, n - 1)
}

/// Whether `path` lies inside the directory `dir`; every path lies inside
/// the root, written as the empty directory.
pub open spec fn inside(dir: Seq<char>, path: Seq<char>) -> bool {
    dir.len() == 0 || (dir.len() < path.len() && path.take(dir.len() as int) == dir && path[dir.len() as int] == '/')
}

pub fn contains(dir: &str, path: &str) -> (b: bool)
    ensures
        b == inside(dir@, path@),
{
    let d = chars_of(dir);
    let p = chars_of(path);
    if d.len() == 0 {
        return true;
    }
    if d.len() >= p.len() {
        return false;
    }
    let mut i: usize = 0;
    while i < d.len()
        invariant
            d@ == dir@,
            p@ == path@,
            d@.len() < p@.len(),
            i <= d@.len(),
            forall|k: int| 0 <= k < i ==> d@[k] == p@[k],
        decreases d@.len() - i,
    {
        if d[i] != p[i] {
            assert(p@.take(d@.len() as int)[i as int] != d@[i as int]);
            return false;
        }
        i = i + 1;
    }
    assert(p@.take(d@.len() as int) =~= d@);
    p[d.len()] == '/'
}

/// A JSON value as the radar reads package and compiler configuration. An
/// object lists its members in key order; numbers keep their text.
#[derive(Debug)]
pub enum JsonValue {
    Null,
    Bool(bool),
    Number(String),
    Text(String),
    Array(Vec<JsonValue>),
    Object(Vec<(String, JsonValue)>),
}

/// The value of the first member named `key`.
pub open spec fn member_of(entries: Seq<(String, JsonValue)>, key: Seq<char>) -> Option<JsonValue>
    decreases entries.len(),
{
    if entries.len() == 0 {
        None
    } else if entries[0].0@ == key {
        Some(entries[0].1)
    } else {
        member_of(entries.drop_first(), key)
    }
}

/// `value.get(key)`: the member `key` of an object.
pub open spec fn json_get(v: JsonValue, key: Seq<char>) -> Option<JsonValue> {
    match v {
        JsonValue::Object(entries) => member_of(entries@, key),
        _ => None,
    }
}

/// `value.as_str()`.
pub open spec fn json_text(v: JsonValue) -> Option<Seq<char>> {
    match v {
        JsonValue::Text(t) => Some(t@),
        _ => None,
    }
}

/// The text of member `key`.
pub open spec fn member_text(v: JsonValue, key: Seq<char>) -> Option<Seq<char>> {
    match json_get(v, key) {
        Some(m) => json_text(m),
        None => None,
    }
}

impl JsonValue {
    /// The member `key` of an object.
    pub fn get(&self, key: &str) -> (r: Option<&JsonValue>)
        ensures
            match r {
                Some(x) => json_get(*self, key@) == Some(*x),
                None => json_get(*self, key@) is None,
            },
    {
        match self {
            JsonValue::Object(entries) => {
                let ghost es = entries@;
                let mut i: usize = 0;
                assert(es.skip(0) =~= es);
                while i < entries.len()
                    invariant
                        i <= es.len(),
                        es == entries@,
                        json_get(*self, key@) == member_of(es, key@),
                        member_of(es, key@) == member_of(es.skip(i as int), key@),
                    decreases es.len() - i,
                {
                    assert(es.skip(i as int)[0] == es[i as int]);
                    if str_is(entries[i].0.as_str(), key) {
                        assert(member_of(es.skip(i as int), key@) == Some(es[i as int].1));
                        return Some(&entries[i].1);
                    }
                    assert(es.skip(i as int).drop_first() =~= es.skip(i + 1));
                    i = i + 1;
                }
                None
            },
            _ => None,
        }
    }

    /// The text of a string value.
    pub fn as_text(&self) -> (r: Option<&String>)
        ensures
            match r {
                Some(t) => json_text(*self) == Some(t@),
                None => json_text(*self) is None,
            },
    {
        match self {
            JsonValue::Text(t) => Some(t),
            _ => None,
        }
    }
}

pub(crate) fn str_is(a: &str, b: &str) -> (r: bool)
    ensures
        r == (a@ == b@),
{
    a.to_owned() == b.to_owned()
}

} // verus!
