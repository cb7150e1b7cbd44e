//! Resolves the import specifiers of one snapshot to files of that same
//! snapshot: relative paths, compiler path aliases and workspace packages.
//! Only paths the snapshot itself evidences are resolved.
use vstd::prelude::*;
use vstd::string::StringExecFns;
use crate::radar_parse::Module;
use crate::keyed::{add_pair, add_pair_entry, put, put_entry};
use crate::radar::contains_string;
use crate::resolve::{contains, directory, directory_of, inside, join, joined, json_get, json_text, member_of, member_text, str_is, JsonValue};
use crate::paths::{file_name, file_name_of, chars_are};
use crate::file_tree::strictly_sorted;
use crate::text::{chars_of, decimal, push_char, push_decimal, string_of};
use vstd::utf8::encode_utf8;
use vstd::string::StringSliceAdditionalSpecFns;

verus! {

/// What one revision holds of the files the radar reads, each table by
/// path in path order: sources, their SHA-256 digests, the parsed modules,
/// the configuration files read as JSON, and the files that could not be
/// read.
pub struct Snapshot {
    pub sources: Vec<(String, String)>,
    pub hashes: Vec<(String, String)>,
    pub modules: Vec<(String, Module)>,
    pub metadata: Vec<(String, JsonValue)>,
    pub skipped: Vec<String>,
}

/// No two entries of a table share a key.
pub open spec fn unique_keys<V>(s: Seq<(String, V)>) -> bool {
    forall|i: int, j: int| 0 <= i < j < s.len() ==> #[trigger] s[i].0@ != #[trigger] s[j].0@
}

/// The paths of a table, in order.
pub open spec fn table_keys<V>(s: Seq<(String, V)>) -> Seq<Seq<char>> {
    s.map_values(|e: (String, V)| e.0@)
}

/// A table as paths with their values.
pub open spec fn entries<V>(s: Seq<(String, V)>) -> Seq<(Seq<char>, V)> {
    s.map_values(|e: (String, V)| (e.0@, e.1))
}

impl Snapshot {
    /// Each table of the snapshot is in path order, each path once, as the
    /// skipped paths are.
    pub open spec fn wf(&self) -> bool {
        &&& strictly_sorted(table_keys(self.sources@))
        &&& strictly_sorted(table_keys(self.hashes@))
        &&& strictly_sorted(table_keys(self.modules@))
        &&& strictly_sorted(table_keys(self.metadata@))
        &&& strictly_sorted(self.skipped.deep_view())
    }
}

/// A table in path order lists each path once.
pub proof fn sorted_tables_are_unique<V>(s: Seq<(String, V)>)
    requires
        strictly_sorted(table_keys(s)),
    ensures
        unique_keys(s),
{
    assert forall|i: int, j: int| 0 <= i < j < s.len() implies #[trigger] s[i].0@ != #[trigger] s[j].0@ by {
        assert(table_keys(s)[i] == s[i].0@ && table_keys(s)[j] == s[j].0@);
        crate::file_tree::lemma_lex_irreflexive(s[i].0@);
    }
}

/// The paths of the modules of a snapshot.
pub open spec fn module_paths(modules: Seq<(String, Module)>) -> Seq<Seq<char>> {
    modules.map_values(|e: (String, Module)| e.0@)
}

/// `.js`, `.jsx`, `.mjs` or `.cjs` taken off the end of a path, the first
/// of these that it ends with.
pub open spec fn script_stem(path: Seq<char>) -> Seq<char> {
    if ".js"@.is_suffix_of(path) {
        path.take(path.len() - 3)
    } else if ".jsx"@.is_suffix_of(path) {
        path.take(path.len() - 4)
    } else if ".mjs"@.is_suffix_of(path) {
        path.take(path.len() - 4)
    } else if ".cjs"@.is_suffix_of(path) {
        path.take(path.len() - 4)
    } else {
        path
    }
}

/// `stem` with extension `ext`.
pub open spec fn dotted(stem: Seq<char>, ext: Seq<char>) -> Seq<char> {
    stem + seq!['.'] + ext
}

/// The index file with extension `ext` of the directory `path`.
pub open spec fn indexed(path: Seq<char>, ext: Seq<char>) -> Seq<char> {
    path + "/index."@ + ext
}

/// The files a module path may name, in the order they are tried: for each
/// of `ts`, `tsx`, `mts`, `cts`, `js`, `jsx`, `mjs`, `cjs` and `d.ts`, the
/// stem with it, then the path as a directory with an index file of it.
pub open spec fn candidates(stem: Seq<char>, path: Seq<char>) -> Seq<Seq<char>> {
    seq![
        dotted(stem, "ts"@), indexed(path, "ts"@),
        dotted(stem, "tsx"@), indexed(path, "tsx"@),
        dotted(stem, "mts"@), indexed(path, "mts"@),
        dotted(stem, "cts"@), indexed(path, "cts"@),
        dotted(stem, "js"@), indexed(path, "js"@),
        dotted(stem, "jsx"@), indexed(path, "jsx"@),
        dotted(stem, "mjs"@), indexed(path, "mjs"@),
        dotted(stem, "cjs"@), indexed(path, "cjs"@),
        dotted(stem, "d.ts"@), indexed(path, "d.ts"@),
    ]
}

/// The first of `cands` that is a module of the snapshot.
pub open spec fn first_module(paths: Seq<Seq<char>>, cands: Seq<Seq<char>>) -> Option<Seq<char>>
    decreases cands.len(),
{
    if cands.len() == 0 {
        None
    } else if paths.contains(cands[0]) {
        Some(cands[0])
    } else {
        first_module(paths, cands.drop_first())
    }
}

/// The module file a path names: itself, or the first candidate file.
pub open spec fn file_of(paths: Seq<Seq<char>>, path: Seq<char>) -> Option<Seq<char>> {
    if paths.contains(path) {
        Some(path)
    } else {
        first_module(paths, candidates(script_stem(path), path))
    }
}

/// Every `*` of `s` replaced by `star`.
pub open spec fn replace_star(s: Seq<char>, star: Seq<char>) -> Seq<char>
    decreases s.len(),
{
    if s.len() == 0 {
        Seq::empty()
    } else {
        replace_star(s.drop_last(), star) + if s.last() == '*' {
            star
        } else {
            seq![s.last()]
        }
    }
}

/// The module file a file path joined to `dir` names.
pub open spec fn joined_file(paths: Seq<Seq<char>>, dir: Seq<char>, path: Seq<char>) -> Option<Seq<char>> {
    match joined(dir, path) {
        Some(j) => file_of(paths, j),
        None => None,
    }
}

/// The keys a conditional export is read under, in order.
pub open spec fn condition_key(n: int) -> Seq<char> {
    if n == 0 {
        "source"@
    } else if n == 1 {
        "development"@
    } else if n == 2 {
        "import"@
    } else if n == 3 {
        "require"@
    } else if n == 4 {
        "default"@
    } else {
        "types"@
    }
}

/// The index of the first member named `key`.
pub open spec fn member_index(entries: Seq<(String, JsonValue)>, key: Seq<char>, from: int) -> Option<int>
    decreases entries.len() - from,
{
    if from < 0 || from >= entries.len() {
        None
    } else if entries[from].0@ == key {
        Some(from)
    } else {
        member_index(entries, key, from + 1)
    }
}

/// The module a package field names: a path (with `*` replaced by
/// `star`), the first target in an array, or the first target under the
/// condition keys of an object.
pub open spec fn target_of(paths: Seq<Seq<char>>, dir: Seq<char>, v: JsonValue, star: Seq<char>) -> Option<Seq<char>>
    decreases v, 0int,
{
    match v {
        JsonValue::Text(p) => joined_file(paths, dir, replace_star(p@, star)),
        JsonValue::Array(items) => targets_from(paths, dir, items, star, 0),
        JsonValue::Object(entries) => condition_target(paths, dir, entries, star, 0),
        _ => None,
    }
}

pub open spec fn targets_from(paths: Seq<Seq<char>>, dir: Seq<char>, items: Vec<JsonValue>, star: Seq<char>, k: int) -> Option<Seq<char>>
    decreases items, items.len() - k,
{
    if k < 0 || k >= items.len() {
        None
    } else {
        match target_of(paths, dir, items[k], star) {
            Some(t) => Some(t),
            None => targets_from(paths, dir, items, star, k + 1),
        }
    }
}

pub open spec fn condition_target(paths: Seq<Seq<char>>, dir: Seq<char>, entries: Vec<(String, JsonValue)>, star: Seq<char>, n: int) -> Option<Seq<char>>
    decreases entries, 6 - n,
{
    if n < 0 || n >= 6 {
        None
    } else {
        let found = match member_index(entries@, condition_key(n), 0) {
            Some(j) => if 0 <= j < entries.len() {
                target_of(paths, dir, entries[j].1, star)
            } else {
                None
            },
            None => None,
        };
        match found {
            Some(t) => Some(t),
            None => condition_target(paths, dir, entries, star, n + 1),
        }
    }
}

/// Resolves specifiers against one snapshot: its modules, its packages
/// (directory and `package.json`) and its compiler configurations
/// (directory and path settings), the deepest directories first.
pub struct Resolver<'a> {
    pub snapshot: &'a Snapshot,
    pub packages: Vec<(String, &'a JsonValue)>,
    pub configs: Vec<(String, ConfigPaths)>,
}

/// The path settings of a `tsconfig.json` or `jsconfig.json`: the base
/// directory, and each alias pattern with the directory its targets are
/// relative to and the targets, by pattern.
pub struct ConfigPaths {
    pub base: Option<String>,
    pub aliases: Vec<(String, (String, Vec<String>))>,
}

/// Path settings as plain values.
pub type ConfigView = (Option<Seq<char>>, Seq<(Seq<char>, (Seq<char>, Seq<Seq<char>>))>);

impl DeepView for ConfigPaths {
    type V = ConfigView;

    open spec fn deep_view(&self) -> ConfigView {
        (self.base.deep_view(), self.aliases.deep_view())
    }
}

fn has_module(modules: &Vec<(String, Module)>, p: &str) -> (b: bool)
    ensures
        b == module_paths(modules@).contains(p@),
{
    let ghost ps = module_paths(modules@);
    let mut i: usize = 0;
    while i < modules.len()
        invariant
            i <= modules@.len(),
            ps == module_paths(modules@),
            forall|k: int| 0 <= k < i ==> ps[k] != p@,
        decreases modules@.len() - i,
    {
        assert(ps[i as int] == modules@[i as int].0@);
        if str_is(modules[i].0.as_str(), p) {
            return true;
        }
        i = i + 1;
    }
    false
}

fn ends_with(s: &Vec<char>, suffix: &str) -> (b: bool)
    ensures
        b == suffix@.is_suffix_of(s@),
{
    crate::radar::ends_with_text(s, suffix)
}

fn stem_of(path: &str) -> (r: String)
    ensures
        r@ == script_stem(path@),
{
    let cs = chars_of(path);
    let n = cs.len();
    proof {
        reveal_strlit(".js");
        reveal_strlit(".jsx");
        reveal_strlit(".mjs");
        reveal_strlit(".cjs");
    }
    if ends_with(&cs, ".js") {
        string_of(&cs, 0, n - 3)
    } else if ends_with(&cs, ".jsx") {
        string_of(&cs, 0, n - 4)
    } else if ends_with(&cs, ".mjs") {
        string_of(&cs, 0, n - 4)
    } else if ends_with(&cs, ".cjs") {
        string_of(&cs, 0, n - 4)
    } else {
        assert(cs@.subrange(0, n as int) =~= cs@);
        string_of(&cs, 0, n)
    }
}

fn add_candidates(c: &mut Vec<String>, stem: &str, path: &str, ext: &str)
    ensures
        final(c).deep_view() == old(c).deep_view().push(dotted(stem@, ext@)).push(indexed(path@, ext@)),
{
    let ghost before = c.deep_view();
    let mut a = stem.to_owned();
    push_char(&mut a, '.');
    a.append(ext);
    let mut b = path.to_owned();
    b.append("/index.");
    b.append(ext);
    assert(a@ =~= dotted(stem@, ext@));
    assert(b@ =~= indexed(path@, ext@));
    c.push(a);
    assert(c.deep_view() =~= before.push(dotted(stem@, ext@)));
    c.push(b);
    assert(c.deep_view() =~= before.push(dotted(stem@, ext@)).push(indexed(path@, ext@)));
}

/// The module file that `path` names in the snapshot with modules `modules`.
pub fn find_file(modules: &Vec<(String, Module)>, path: &str) -> (r: Option<String>)
    ensures
        match r {
            Some(f) => file_of(module_paths(modules@), path@) == Some(f@),
            None => file_of(module_paths(modules@), path@) is None,
        },
{
    if has_module(modules, path) {
        return Some(path.to_owned());
    }
    let stem = stem_of(path);
    let s = stem.as_str();
    let mut c: Vec<String> = Vec::new();
    add_candidates(&mut c, s, path, "ts");
    add_candidates(&mut c, s, path, "tsx");
    add_candidates(&mut c, s, path, "mts");
    add_candidates(&mut c, s, path, "cts");
    add_candidates(&mut c, s, path, "js");
    add_candidates(&mut c, s, path, "jsx");
    add_candidates(&mut c, s, path, "mjs");
    add_candidates(&mut c, s, path, "cjs");
    add_candidates(&mut c, s, path, "d.ts");
    let ghost cands = candidates(script_stem(path@), path@);
    assert(c.deep_view() =~= cands);
    let ghost ps = module_paths(modules@);
    let mut i: usize = 0;
    assert(cands.skip(0) =~= cands);
    while i < c.len()
        invariant
            i <= c@.len(),
            c.deep_view() == cands,
            ps == module_paths(modules@),
            file_of(ps, path@) == first_module(ps, cands),
            first_module(ps, cands) == first_module(ps, cands.skip(i as int)),
        decreases c@.len() - i,
    {
        assert(cands.skip(i as int)[0] == c@[i as int]@);
        if has_module(modules, c[i].as_str()) {
            return Some(c[i].clone());
        }
        assert(cands.skip(i as int).drop_first() =~= cands.skip(i + 1));
        i = i + 1;
    }
    None
}

fn star_replaced(s: &str, star: &str) -> (r: String)
    ensures
        r@ == replace_star(s@, star@),
{
    let cs = chars_of(s);
    let mut r = String::new();
    let mut i: usize = 0;
    while i < cs.len()
        invariant
            i <= cs@.len(),
            cs@ == s@,
            r@ == replace_star(cs@.take(i as int), star@),
        decreases cs@.len() - i,
    {
        assert(cs@.take(i + 1).drop_last() =~= cs@.take(i as int));
        if cs[i] == '*' {
            r.append(star);
        } else {
            push_char(&mut r, cs[i]);
        }
        i = i + 1;
    }
    assert(cs@.take(i as int) =~= cs@);
    r
}

fn joined_module(modules: &Vec<(String, Module)>, dir: &str, path: &str) -> (r: Option<String>)
    ensures
        match r {
            Some(f) => joined_file(module_paths(modules@), dir@, path@) == Some(f@),
            None => joined_file(module_paths(modules@), dir@, path@) is None,
        },
{
    match join(dir, path) {
        Some(j) => find_file(modules, j.as_str()),
        None => None,
    }
}

fn condition_key_of(n: usize) -> (k: &'static str)
    requires
        n < 6,
    ensures
        k@ == condition_key(n as int),
{
    if n == 0 {
        "source"
    } else if n == 1 {
        "development"
    } else if n == 2 {
        "import"
    } else if n == 3 {
        "require"
    } else if n == 4 {
        "default"
    } else {
        "types"
    }
}

fn index_of_member(entries: &Vec<(String, JsonValue)>, key: &str) -> (r: Option<usize>)
    ensures
        match r {
            Some(j) => member_index(entries@, key@, 0) == Some(j as int) && j < entries@.len(),
            None => member_index(entries@, key@, 0) is None,
        },
{
    let mut i: usize = 0;
    while i < entries.len()
        invariant
            i <= entries@.len(),
            member_index(entries@, key@, 0) == member_index(entries@, key@, i as int),
        decreases entries@.len() - i,
    {
        if str_is(entries[i].0.as_str(), key) {
            return Some(i);
        }
        i = i + 1;
    }
    None
}

/// The module a package field names (see [`target_of`]).
pub fn package_field_target(modules: &Vec<(String, Module)>, dir: &str, v: &JsonValue, star: &str) -> (r: Option<String>)
    ensures
        match r {
            Some(f) => target_of(module_paths(modules@), dir@, *v, star@) == Some(f@),
            None => target_of(module_paths(modules@), dir@, *v, star@) is None,
        },
    decreases *v,
{
    match v {
        JsonValue::Text(p) => {
            let path = star_replaced(p.as_str(), star);
            joined_module(modules, dir, path.as_str())
        },
        JsonValue::Array(items) => {
            let mut k: usize = 0;
            while k < items.len()
                invariant
                    k <= items@.len(),
                    *v == JsonValue::Array(*items),
                    target_of(module_paths(modules@), dir@, *v, star@) == targets_from(module_paths(modules@), dir@, *items, star@, k as int),
                decreases items@.len() - k,
            {
                match package_field_target(modules, dir, &items[k], star) {
                    Some(t) => return Some(t),
                    None => {},
                }
                k = k + 1;
            }
            None
        },
        JsonValue::Object(entries) => {
            let mut n: usize = 0;
            while n < 6
                invariant
                    n <= 6,
                    *v == JsonValue::Object(*entries),
                    target_of(module_paths(modules@), dir@, *v, star@) == condition_target(module_paths(modules@), dir@, *entries, star@, n as int),
                decreases 6 - n,
            {
                match index_of_member(entries, condition_key_of(n)) {
                    Some(j) => match package_field_target(modules, dir, &entries[j].1, star) {
                        Some(t) => return Some(t),
                        None => {},
                    },
                    None => {},
                }
                n = n + 1;
            }
            None
        },
        _ => None,
    }
}

/// The target of member `key` of a package value.
pub open spec fn field_target(paths: Seq<Seq<char>>, dir: Seq<char>, value: JsonValue, key: Seq<char>) -> Option<Seq<char>> {
    match json_get(value, key) {
        Some(x) => target_of(paths, dir, x, Seq::empty()),
        None => None,
    }
}

/// The first of two outcomes that is there.
pub open spec fn either(a: Option<Seq<char>>, b: Option<Seq<char>>) -> Option<Seq<char>> {
    if a is Some {
        a
    } else {
        b
    }
}

/// The index of the first `*` from `from` on.
pub open spec fn star_at(s: Seq<char>, from: int) -> Option<int>
    decreases s.len() - from,
{
    if from < 0 || from >= s.len() {
        None
    } else if s[from] == '*' {
        Some(from)
    } else {
        star_at(s, from + 1)
    }
}

/// What `*` stands for when `sub` matches `pattern` (`prefix*suffix`).
pub open spec fn star_match(pattern: Seq<char>, sub: Seq<char>) -> Option<Seq<char>> {
    match star_at(pattern, 0) {
        Some(k) => {
            let prefix = pattern.take(k);
            let suffix = pattern.skip(k + 1);
            if prefix.is_prefix_of(sub) && suffix.is_suffix_of(sub.skip(prefix.len() as int)) {
                Some(sub.subrange(prefix.len() as int, sub.len() - suffix.len()))
            } else {
                None
            }
        },
        None => None,
    }
}

/// The first export pattern from `k` on that `sub` matches with a target.
pub open spec fn pattern_target(paths: Seq<Seq<char>>, dir: Seq<char>, es: Seq<(String, JsonValue)>, sub: Seq<char>, k: int) -> Option<Seq<char>>
    decreases es.len() - k,
{
    if k < 0 || k >= es.len() {
        None
    } else {
        let found = match star_match(es[k].0@, sub) {
            Some(star) => target_of(paths, dir, es[k].1, star),
            None => None,
        };
        if found is Some {
            found
        } else {
            pattern_target(paths, dir, es, sub, k + 1)
        }
    }
}

/// The module that subpath `sub` (`.` for the package itself) of the package
/// in `dir` names: its `source` for `.`, then its `exports` (the subpath's
/// entry, the whole field for `.`, then the wildcard patterns) when it has
/// them, and otherwise `module`, `main`, `types` or the index file for `.`,
/// or the subpath as a file.
pub open spec fn package_target(paths: Seq<Seq<char>>, dir: Seq<char>, value: JsonValue, sub: Seq<char>) -> Option<Seq<char>> {
    let root = sub == "."@;
    let from_source = if root {
        field_target(paths, dir, value, "source"@)
    } else {
        None
    };
    if from_source is Some {
        from_source
    } else {
        match json_get(value, "exports"@) {
            Some(exports) => {
                let direct = field_target(paths, dir, exports, sub);
                let whole = if root {
                    target_of(paths, dir, exports, Seq::empty())
                } else {
                    None
                };
                let patterned = match exports {
                    JsonValue::Object(es) => pattern_target(paths, dir, es@, sub, 0),
                    _ => None,
                };
                either(direct, either(whole, patterned))
            },
            None => if root {
                either(
                    field_target(paths, dir, value, "module"@),
                    either(
                        field_target(paths, dir, value, "main"@),
                        either(field_target(paths, dir, value, "types"@), joined_file(paths, dir, "index"@)),
                    ),
                )
            } else {
                joined_file(paths, dir, sub)
            },
        }
    }
}

fn field_module(modules: &Vec<(String, Module)>, dir: &str, value: &JsonValue, key: &str) -> (r: Option<String>)
    ensures
        match r {
            Some(f) => field_target(module_paths(modules@), dir@, *value, key@) == Some(f@),
            None => field_target(module_paths(modules@), dir@, *value, key@) is None,
        },
{
    match value.get(key) {
        Some(x) => {
            proof {
                reveal_strlit("");
            }
            assert(""@ =~= Seq::<char>::empty());
            package_field_target(modules, dir, x, "")
        },
        None => None,
    }
}

fn star_index(s: &Vec<char>) -> (r: Option<usize>)
    ensures
        match r {
            Some(k) => star_at(s@, 0) == Some(k as int) && k < s@.len(),
            None => star_at(s@, 0) is None,
        },
{
    let mut i: usize = 0;
    while i < s.len()
        invariant
            i <= s@.len(),
            star_at(s@, 0) == star_at(s@, i as int),
        decreases s@.len() - i,
    {
        if s[i] == '*' {
            return Some(i);
        }
        i = i + 1;
    }
    None
}

fn prefix_at(s: &Vec<char>, from: usize, p: &Vec<char>) -> (b: bool)
    requires
        from <= s@.len(),
    ensures
        b == p@.is_prefix_of(s@.skip(from as int)),
{
    let n = s.len();
    if p.len() > n - from {
        return false;
    }
    let mut i: usize = 0;
    while i < p.len()
        invariant
            n == s@.len(),
            p@.len() <= s@.len() - from,
            from <= s@.len(),
            i <= p@.len(),
            forall|k: int| 0 <= k < i ==> p@[k] == s@[from + k],
        decreases p@.len() - i,
    {
        if p[i] != s[from + i] {
            assert(s@.skip(from as int)[i as int] == s@[from + i]);
            return false;
        }
        i = i + 1;
    }
    assert(s@.skip(from as int).take(p@.len() as int) =~= p@);
    true
}

fn match_star(pattern: &str, sub: &str) -> (r: Option<String>)
    ensures
        match r {
            Some(t) => star_match(pattern@, sub@) == Some(t@),
            None => star_match(pattern@, sub@) is None,
        },
{
    let pc = chars_of(pattern);
    let sc = chars_of(sub);
    let k = match star_index(&pc) {
        Some(k) => k,
        None => return None,
    };
    let n = pc.len();
    let prefix = crate::text::copy_range(&pc, 0, k);
    let suffix = crate::text::copy_range(&pc, k + 1, n);
    assert(prefix@ =~= pattern@.take(k as int));
    assert(suffix@ =~= pattern@.skip(k + 1));
    if !prefix_at(&sc, 0, &prefix) {
        assert(sc@.skip(0) =~= sc@);
        return None;
    }
    assert(sc@.skip(0) =~= sc@);
    let rest = sc.len() - prefix.len();
    if suffix.len() > rest {
        return None;
    }
    let end = sc.len() - suffix.len();
    let ok = prefix_at(&sc, end, &suffix);
    proof {
        let tail = sc@.skip(prefix@.len() as int);
        assert(sc@.skip(end as int) =~= tail.skip(tail.len() - suffix@.len()));
        if ok {
            assert(tail.skip(tail.len() - suffix@.len()).take(suffix@.len() as int) =~= suffix@);
        }
        if suffix@.is_suffix_of(tail) {
            assert(tail.skip(tail.len() - suffix@.len()) =~= suffix@);
            assert(sc@.skip(end as int).take(suffix@.len() as int) =~= suffix@);
        }
    }
    if !ok {
        return None;
    }
    Some(string_of(&sc, prefix.len(), end))
}

fn export_pattern_target(modules: &Vec<(String, Module)>, dir: &str, es: &Vec<(String, JsonValue)>, sub: &str) -> (r: Option<String>)
    ensures
        match r {
            Some(f) => pattern_target(module_paths(modules@), dir@, es@, sub@, 0) == Some(f@),
            None => pattern_target(module_paths(modules@), dir@, es@, sub@, 0) is None,
        },
{
    let mut k: usize = 0;
    while k < es.len()
        invariant
            k <= es@.len(),
            pattern_target(module_paths(modules@), dir@, es@, sub@, 0) == pattern_target(module_paths(modules@), dir@, es@, sub@, k as int),
        decreases es@.len() - k,
    {
        match match_star(es[k].0.as_str(), sub) {
            Some(star) => match package_field_target(modules, dir, &es[k].1, star.as_str()) {
                Some(t) => return Some(t),
                None => {},
            },
            None => {},
        }
        k = k + 1;
    }
    None
}

fn first_found(a: Option<String>) -> (b: bool)
    ensures
        b == a is Some,
{
    match a {
        Some(_) => true,
        None => false,
    }
}

/// The module that subpath `sub` of the package in `dir` with manifest
/// `value` names (see [`package_target`]).
pub fn package_module(modules: &Vec<(String, Module)>, dir: &str, value: &JsonValue, sub: &str) -> (r: Option<String>)
    ensures
        match r {
            Some(f) => package_target(module_paths(modules@), dir@, *value, sub@) == Some(f@),
            None => package_target(module_paths(modules@), dir@, *value, sub@) is None,
        },
{
    proof {
        reveal_strlit("");
    }
    assert(""@ =~= Seq::<char>::empty());
    let root = str_is(sub, ".");
    if root {
        match field_module(modules, dir, value, "source") {
            Some(t) => return Some(t),
            None => {},
        }
    }
    match value.get("exports") {
        Some(exports) => {
            match field_module(modules, dir, exports, sub) {
                Some(t) => return Some(t),
                None => {},
            }
            if root {
                match package_field_target(modules, dir, exports, "") {
                    Some(t) => return Some(t),
                    None => {},
                }
            }
            match exports {
                JsonValue::Object(es) => export_pattern_target(modules, dir, es, sub),
                _ => None,
            }
        },
        None => {
            if root {
                match field_module(modules, dir, value, "module") {
                    Some(t) => return Some(t),
                    None => {},
                }
                match field_module(modules, dir, value, "main") {
                    Some(t) => return Some(t),
                    None => {},
                }
                match field_module(modules, dir, value, "types") {
                    Some(t) => return Some(t),
                    None => {},
                }
                joined_module(modules, dir, "index")
            } else {
                joined_module(modules, dir, sub)
            }
        },
    }
}

/// Some value of `es` from `k` on has `path` as its target.
pub open spec fn values_target(paths: Seq<Seq<char>>, dir: Seq<char>, es: Seq<(String, JsonValue)>, path: Seq<char>) -> bool {
    exists|k: int| 0 <= k < es.len() && #[trigger] target_of(paths, dir, es[k].1, Seq::empty()) == Some(path)
}

/// `path` is an entry point of the package in `dir`: the target of its
/// `source`, `main` or `module`, of the package itself, or of its `bin`
/// (a path, or any of a map of them).
pub open spec fn entry_of(paths: Seq<Seq<char>>, dir: Seq<char>, value: JsonValue, path: Seq<char>) -> bool {
    ||| field_target(paths, dir, value, "source"@) == Some(path)
    ||| field_target(paths, dir, value, "main"@) == Some(path)
    ||| field_target(paths, dir, value, "module"@) == Some(path)
    ||| package_target(paths, dir, value, "."@) == Some(path)
    ||| match json_get(value, "bin"@) {
        Some(bin) => target_of(paths, dir, bin, Seq::empty()) == Some(path) || match bin {
            JsonValue::Object(es) => values_target(paths, dir, es@, path),
            _ => false,
        },
        None => false,
    }
}

fn is_target(r: Option<String>, path: &str) -> (b: bool)
    ensures
        b == (match r {
            Some(t) => t@ == path@,
            None => false,
        }),
{
    match r {
        Some(t) => str_is(t.as_str(), path),
        None => false,
    }
}

fn package_entry(modules: &Vec<(String, Module)>, dir: &str, value: &JsonValue, path: &str) -> (b: bool)
    ensures
        b == entry_of(module_paths(modules@), dir@, *value, path@),
{
    proof {
        reveal_strlit("");
    }
    assert(""@ =~= Seq::<char>::empty());
    let ghost ps = module_paths(modules@);
    if is_target(field_module(modules, dir, value, "source"), path) || is_target(field_module(modules, dir, value, "main"), path)
        || is_target(field_module(modules, dir, value, "module"), path) || is_target(package_module(modules, dir, value, "."), path) {
        return true;
    }
    match value.get("bin") {
        Some(bin) => {
            if is_target(package_field_target(modules, dir, bin, ""), path) {
                return true;
            }
            match bin {
                JsonValue::Object(es) => {
                    let mut k: usize = 0;
                    while k < es.len()
                        invariant
                            k <= es@.len(),
                            ""@ == Seq::<char>::empty(),
                            *bin == JsonValue::Object(*es),
                            entry_of(ps, dir@, *value, path@) == values_target(ps, dir@, es@, path@),
                            forall|j: int| 0 <= j < k ==> #[trigger] target_of(ps, dir@, es@[j].1, Seq::empty()) != Some(path@),
                            ps == module_paths(modules@),
                        decreases es@.len() - k,
                    {
                        if is_target(package_field_target(modules, dir, &es[k].1, ""), path) {
                            assert(target_of(ps, dir@, es@[k as int].1, Seq::empty()) == Some(path@));
                            return true;
                        }
                        k = k + 1;
                    }
                    false
                },
                _ => false,
            }
        },
        None => false,
    }
}

/// No path settings.
pub open spec fn no_paths() -> ConfigView {
    (None, Seq::empty())
}

/// The texts among `items` that start with `.`: relative configuration
/// files.
pub open spec fn relative_texts(items: Seq<JsonValue>) -> Seq<Seq<char>>
    decreases items.len(),
{
    if items.len() == 0 {
        Seq::empty()
    } else {
        relative_texts(items.drop_last()) + match json_text(items.last()) {
            Some(t) => if t.len() > 0 && t[0] == '.' {
                seq![t]
            } else {
                Seq::empty()
            },
            None => Seq::empty(),
        }
    }
}

/// The relative configuration files that `extends` names: one, or each of
/// a list.
pub open spec fn extends_of(value: JsonValue) -> Seq<Seq<char>> {
    match json_get(value, "extends"@) {
        Some(v) => match v {
            JsonValue::Array(items) => relative_texts(items@),
            _ => relative_texts(seq![v]),
        },
        None => Seq::empty(),
    }
}

/// A configuration path with `.json` added unless it has it.
pub open spec fn with_json_ext(t: Seq<char>) -> Seq<char> {
    if ".json"@.is_suffix_of(t) {
        t
    } else {
        t + ".json"@
    }
}

/// `a` with each entry of `b` put in, in order.
pub open spec fn put_all<V>(a: Seq<(Seq<char>, V)>, b: Seq<(Seq<char>, V)>) -> Seq<(Seq<char>, V)>
    decreases b.len(),
{
    if b.len() == 0 {
        a
    } else {
        put(put_all(a, b.drop_last()), b.last().0, b.last().1)
    }
}

/// Settings inherited on top of `acc`: the inherited base when it has one,
/// and its aliases added.
pub open spec fn merge(acc: ConfigView, inherited: ConfigView) -> ConfigView {
    (if inherited.0 is Some {
        inherited.0
    } else {
        acc.0
    }, put_all(acc.1, inherited.1))
}

/// The texts among `items`.
pub open spec fn texts_in(items: Seq<JsonValue>) -> Seq<Seq<char>>
    decreases items.len(),
{
    if items.len() == 0 {
        Seq::empty()
    } else {
        texts_in(items.drop_last()) + match json_text(items.last()) {
            Some(t) => seq![t],
            None => Seq::empty(),
        }
    }
}

/// The alias table of a `paths` object: each pattern with `base` and the
/// texts of its target list.
pub open spec fn alias_table(es: Seq<(String, JsonValue)>, base: Seq<char>) -> Seq<(Seq<char>, (Seq<char>, Seq<Seq<char>>))>
    decreases es.len(),
{
    if es.len() == 0 {
        Seq::empty()
    } else {
        put(
            alias_table(es.drop_last(), base),
            es.last().0@,
            (
                base,
                match es.last().1 {
                    JsonValue::Array(items) => texts_in(items@),
                    _ => Seq::empty(),
                },
            ),
        )
    }
}

/// Settings `r` with the `compilerOptions` of `value` (in directory `dir`)
/// applied: `baseUrl` sets the base, `paths` replaces the aliases, relative
/// to the base or else to `dir`.
pub open spec fn options_applied(r: ConfigView, dir: Seq<char>, value: JsonValue) -> ConfigView {
    match json_get(value, "compilerOptions"@) {
        None => r,
        Some(opts) => {
            let r1 = match member_text(opts, "baseUrl"@) {
                Some(b) => (joined(dir, b), r.1),
                None => r,
            };
            match json_get(opts, "paths"@) {
                Some(p) => match p {
                    JsonValue::Object(es) => (
                        r1.0,
                        alias_table(
                            es@,
                            match r1.0 {
                                Some(b) => b,
                                None => dir,
                            },
                        ),
                    ),
                    _ => r1,
                },
                None => r1,
            }
        },
    }
}

/// The path settings of the configuration file `path` with what it extends,
/// and the files visited so far (`seen`, each read once). Inheritance is
/// followed `fuel` files deep; no chain of distinct files is deeper than
/// there are files.
pub open spec fn config_of(meta: Seq<(String, JsonValue)>, path: Seq<char>, seen: Seq<Seq<char>>, fuel: nat) -> (ConfigView, Seq<Seq<char>>)
    decreases fuel, 0int, 0int,
{
    if seen.contains(path) {
        (no_paths(), seen)
    } else {
        let seen1 = seen.push(path);
        match member_of(meta, path) {
            None => (no_paths(), seen1),
            Some(value) => if fuel == 0 {
                (no_paths(), seen1)
            } else {
                let dir = directory_of(path);
                let r = inherit(meta, dir, extends_of(value), seen1, (fuel - 1) as nat);
                (options_applied(r.0, dir, value), r.1)
            },
        }
    }
}

pub open spec fn inherit(meta: Seq<(String, JsonValue)>, dir: Seq<char>, parents: Seq<Seq<char>>, seen: Seq<Seq<char>>, fuel: nat) -> (ConfigView, Seq<Seq<char>>)
    decreases fuel, 1int, parents.len(),
{
    if parents.len() == 0 {
        (no_paths(), seen)
    } else {
        let prev = inherit(meta, dir, parents.drop_last(), seen, fuel);
        match joined(dir, parents.last()) {
            None => prev,
            Some(t) => {
                let c = config_of(meta, with_json_ext(t), prev.1, fuel);
                (merge(prev.0, c.0), c.1)
            },
        }
    }
}

fn relative_items(value: &JsonValue) -> (r: Vec<String>)
    ensures
        r.deep_view() == extends_of(*value),
{
    let mut r: Vec<String> = Vec::new();
    match value.get("extends") {
        Some(v) => {
            match v {
                JsonValue::Array(items) => {
                    let mut k: usize = 0;
                    assert(items@.take(0) =~= Seq::<JsonValue>::empty());
                    while k < items.len()
                        invariant
                            k <= items@.len(),
                            r.deep_view() == relative_texts(items@.take(k as int)),
                        decreases items@.len() - k,
                    {
                        assert(items@.take(k + 1).drop_last() =~= items@.take(k as int));
                        let ghost before = r.deep_view();
                        match items[k].as_text() {
                            Some(t) => {
                                let cs = chars_of(t.as_str());
                                if cs.len() > 0 && cs[0] == '.' {
                                    r.push(t.clone());
                                    assert(r.deep_view() =~= before + seq![t@]);
                                } else {
                                    assert(before + Seq::<Seq<char>>::empty() =~= before);
                                }
                            },
                            None => {
                                assert(before + Seq::<Seq<char>>::empty() =~= before);
                            },
                        }
                        k = k + 1;
                    }
                    assert(items@.take(k as int) =~= items@);
                },
                _ => {
                    let ghost one = seq![*v];
                    assert(one.drop_last() =~= Seq::<JsonValue>::empty());
                    assert(one.last() == *v);
                    assert(relative_texts(one.drop_last()) =~= Seq::<Seq<char>>::empty());
                    assert(r.deep_view() =~= Seq::<Seq<char>>::empty());
                    match v.as_text() {
                        Some(t) => {
                            let cs = chars_of(t.as_str());
                            if cs.len() > 0 && cs[0] == '.' {
                                r.push(t.clone());
                                assert(r.deep_view() =~= seq![t@]);
                            }
                        },
                        None => {},
                    }
                    assert(r.deep_view() =~= relative_texts(one));
                },
            }
        },
        None => {
            assert(r.deep_view() =~= Seq::<Seq<char>>::empty());
        },
    }
    r
}

fn texts_of(v: &JsonValue) -> (r: Vec<String>)
    ensures
        r.deep_view() == match *v {
            JsonValue::Array(items) => texts_in(items@),
            _ => Seq::empty(),
        },
{
    let mut r: Vec<String> = Vec::new();
    match v {
        JsonValue::Array(items) => {
            let mut k: usize = 0;
            assert(items@.take(0) =~= Seq::<JsonValue>::empty());
            while k < items.len()
                invariant
                    k <= items@.len(),
                    r.deep_view() == texts_in(items@.take(k as int)),
                decreases items@.len() - k,
            {
                assert(items@.take(k + 1).drop_last() =~= items@.take(k as int));
                let ghost before = r.deep_view();
                match items[k].as_text() {
                    Some(t) => {
                        r.push(t.clone());
                        assert(r.deep_view() =~= before + seq![t@]);
                    },
                    None => {
                        assert(before + Seq::<Seq<char>>::empty() =~= before);
                    },
                }
                k = k + 1;
            }
            assert(items@.take(k as int) =~= items@);
        },
        _ => {
            assert(r.deep_view() =~= Seq::<Seq<char>>::empty());
        },
    }
    r
}

fn aliases_of(es: &Vec<(String, JsonValue)>, base: &String) -> (r: Vec<(String, (String, Vec<String>))>)
    ensures
        r.deep_view() == alias_table(es@, base@),
{
    let mut r: Vec<(String, (String, Vec<String>))> = Vec::new();
    let mut k: usize = 0;
    assert(es@.take(0) =~= Seq::<(String, JsonValue)>::empty());
    assert(r.deep_view() =~= alias_table(Seq::empty(), base@));
    while k < es.len()
        invariant
            k <= es@.len(),
            r.deep_view() == alias_table(es@.take(k as int), base@),
        decreases es@.len() - k,
    {
        assert(es@.take(k + 1).drop_last() =~= es@.take(k as int));
        assert(es@.take(k + 1).last() == es@[k as int]);
        let targets = texts_of(&es[k].1);
        put_entry(&mut r, es[k].0.clone(), (base.clone(), targets));
        k = k + 1;
    }
    assert(es@.take(k as int) =~= es@);
    r
}

fn apply_options(r: ConfigPaths, dir: &String, value: &JsonValue) -> (out: ConfigPaths)
    ensures
        out.deep_view() == options_applied(r.deep_view(), dir@, *value),
{
    let opts = match value.get("compilerOptions") {
        Some(o) => o,
        None => return r,
    };
    let mut r1 = r;
    match opts.get("baseUrl") {
        Some(b) => match b.as_text() {
            Some(t) => {
                r1 = ConfigPaths { base: join(dir.as_str(), t.as_str()), aliases: r1.aliases };
            },
            None => {},
        },
        None => {},
    }
    match opts.get("paths") {
        Some(p) => match p {
            JsonValue::Object(es) => {
                let base = match &r1.base {
                    Some(b) => b.clone(),
                    None => dir.clone(),
                };
                ConfigPaths { base: r1.base, aliases: aliases_of(es, &base) }
            },
            _ => r1,
        },
        None => r1,
    }
}

fn copy_aliases(a: &mut Vec<(String, (String, Vec<String>))>, b: &Vec<(String, (String, Vec<String>))>)
    ensures
        final(a).deep_view() == put_all(old(a).deep_view(), b.deep_view()),
{
    let ghost start = a.deep_view();
    let ghost bv = b.deep_view();
    let mut k: usize = 0;
    assert(bv.take(0) =~= Seq::<(Seq<char>, (Seq<char>, Seq<Seq<char>>))>::empty());
    while k < b.len()
        invariant
            k <= b@.len(),
            bv == b.deep_view(),
            a.deep_view() == put_all(start, bv.take(k as int)),
        decreases b@.len() - k,
    {
        assert(bv.take(k + 1).drop_last() =~= bv.take(k as int));
        assert(bv.take(k + 1).last() == bv[k as int]);
        let (key, (base, targets)) = &b[k];
        put_entry(a, key.clone(), (base.clone(), crate::radar_parse::copy_names(targets)));
        k = k + 1;
    }
    assert(bv.take(k as int) =~= bv);
}

fn entry_value<'a>(entries: &'a Vec<(String, JsonValue)>, key: &str) -> (r: Option<&'a JsonValue>)
    ensures
        match r {
            Some(x) => member_of(entries@, key@) == Some(*x),
            None => member_of(entries@, key@) is None,
        },
{
    let ghost es = entries@;
    let mut i: usize = 0;
    assert(es.skip(0) =~= es);
    while i < entries.len()
        invariant
            i <= es.len(),
            es == entries@,
            member_of(es, key@) == member_of(es.skip(i as int), key@),
        decreases es.len() - i,
    {
        assert(es.skip(i as int)[0] == es[i as int]);
        if str_is(entries[i].0.as_str(), key) {
            return Some(&entries[i].1);
        }
        assert(es.skip(i as int).drop_first() =~= es.skip(i + 1));
        i = i + 1;
    }
    None
}

fn json_ext(t: String) -> (r: String)
    ensures
        r@ == with_json_ext(t@),
{
    let cs = chars_of(t.as_str());
    if ends_with(&cs, ".json") {
        t
    } else {
        let mut r = t;
        r.append(".json");
        r
    }
}

fn no_config() -> (r: ConfigPaths)
    ensures
        r.deep_view() == no_paths(),
{
    let r = ConfigPaths { base: None, aliases: Vec::new() };
    assert(r.aliases.deep_view() =~= Seq::<(Seq<char>, (Seq<char>, Seq<Seq<char>>))>::empty());
    r
}

/// The path settings of the configuration file `path` (see [`config_of`]).
fn config(meta: &Vec<(String, JsonValue)>, path: &String, seen: &mut Vec<String>, fuel: usize) -> (r: ConfigPaths)
    ensures
        (r.deep_view(), final(seen).deep_view()) == config_of(meta@, path@, old(seen).deep_view(), fuel as nat),
    decreases fuel,
{
    assert(crate::radar::string_views(seen@) =~= seen.deep_view());
    if contains_string(seen, path) {
        return no_config();
    }
    let ghost before = seen.deep_view();
    seen.push(path.clone());
    assert(seen.deep_view() =~= before.push(path@));
    let value = match entry_value(meta, path.as_str()) {
        Some(v) => v,
        None => return no_config(),
    };
    if fuel == 0 {
        return no_config();
    }
    let dir = directory(path.as_str());
    let parents = relative_items(value);
    let ghost pv = parents.deep_view();
    let ghost seen1 = seen.deep_view();
    let mut acc = no_config();
    let mut k: usize = 0;
    assert(pv.take(0) =~= Seq::<Seq<char>>::empty());
    while k < parents.len()
        invariant
            k <= parents@.len(),
            fuel > 0,
            pv == parents.deep_view(),
            (acc.deep_view(), seen.deep_view()) == inherit(meta@, dir@, pv.take(k as int), seen1, (fuel - 1) as nat),
        decreases parents@.len() - k,
    {
        assert(pv.take(k + 1).drop_last() =~= pv.take(k as int));
        assert(pv.take(k + 1).last() == parents@[k as int]@);
        match join(dir.as_str(), parents[k].as_str()) {
            Some(t) => {
                let target = json_ext(t);
                let c = config(meta, &target, seen, fuel - 1);
                let base = match c.base {
                    Some(b) => Some(b),
                    None => acc.base,
                };
                let mut aliases = acc.aliases;
                copy_aliases(&mut aliases, &c.aliases);
                acc = ConfigPaths { base, aliases };
            },
            None => {},
        }
        k = k + 1;
    }
    assert(pv.take(k as int) =~= pv);
    apply_options(acc, &dir, value)
}

/// The text of an alias pattern before its `*`, or the whole pattern.
pub open spec fn prefix_len(key: Seq<char>) -> int {
    match star_at(key, 0) {
        Some(k) => k,
        None => key.len() as int,
    }
}

/// Alias pattern `a` is tried before `b`: exact patterns before wildcard
/// ones, then longer prefixes first.
pub open spec fn ranks_before(a: Seq<char>, b: Seq<char>) -> bool {
    let sa = star_at(a, 0) is Some;
    let sb = star_at(b, 0) is Some;
    (!sa && sb) || (sa == sb && prefix_len(a) > prefix_len(b))
}

/// What `*` stands for when `source` matches alias `pattern`; an exact
/// pattern matches only itself.
pub open spec fn alias_match(pattern: Seq<char>, source: Seq<char>) -> Option<Seq<char>> {
    if star_at(pattern, 0) is Some {
        star_match(pattern, source)
    } else if pattern == source {
        Some(Seq::empty())
    } else {
        None
    }
}

/// The alias among the first `n` that `source` matches and that is tried
/// first: the best rank, then the earliest in key order.
pub open spec fn best_alias(aliases: Seq<(Seq<char>, (Seq<char>, Seq<Seq<char>>))>, source: Seq<char>, n: int) -> Option<int>
    decreases n,
{
    if n <= 0 {
        None
    } else {
        let b = best_alias(aliases, source, n - 1);
        let k = n - 1;
        if alias_match(aliases[k].0, source) is Some && match b {
            None => true,
            Some(j) => ranks_before(aliases[k].0, aliases[j].0),
        } {
            Some(k)
        } else {
            b
        }
    }
}

/// The first of `targets` from `k` on that names a module once its `*` is
/// replaced.
pub open spec fn alias_targets(paths: Seq<Seq<char>>, base: Seq<char>, targets: Seq<Seq<char>>, star: Seq<char>, k: int) -> Option<Seq<char>>
    decreases targets.len() - k,
{
    if k < 0 || k >= targets.len() {
        None
    } else {
        let found = joined_file(paths, base, replace_star(targets[k], star));
        if found is Some {
            found
        } else {
            alias_targets(paths, base, targets, star, k + 1)
        }
    }
}

/// A bare specifier through compiler settings: the first matching alias's
/// targets, then the base directory.
pub open spec fn config_resolution(paths: Seq<Seq<char>>, cfg: ConfigView, source: Seq<char>) -> Option<Seq<char>> {
    let via_alias = match best_alias(cfg.1, source, cfg.1.len() as int) {
        Some(i) => match alias_match(cfg.1[i].0, source) {
            Some(star) => alias_targets(paths, cfg.1[i].1.0, cfg.1[i].1.1, star, 0),
            None => None,
        },
        None => None,
    };
    either(
        via_alias,
        match cfg.0 {
            Some(b) => joined_file(paths, b, source),
            None => None,
        },
    )
}

/// A bare specifier through the named packages from `k` on: the package
/// itself, or a subpath of it; the first package whose name fits decides.
pub open spec fn package_resolution(paths: Seq<Seq<char>>, pkgs: Seq<(Seq<char>, JsonValue)>, source: Seq<char>, k: int) -> Option<Seq<char>>
    decreases pkgs.len() - k,
{
    if k < 0 || k >= pkgs.len() {
        None
    } else {
        match member_text(pkgs[k].1, "name"@) {
            None => package_resolution(paths, pkgs, source, k + 1),
            Some(name) => if source == name {
                package_target(paths, pkgs[k].0, pkgs[k].1, "."@)
            } else if name.is_prefix_of(source) && source.len() > name.len() && source[name.len() as int] == '/' {
                package_target(paths, pkgs[k].0, pkgs[k].1, "./"@ + source.skip(name.len() + 1int))
            } else {
                package_resolution(paths, pkgs, source, k + 1)
            },
        }
    }
}

/// The first configuration from `k` on whose directory holds `importer`.
pub open spec fn first_config(configs: Seq<(Seq<char>, ConfigView)>, importer: Seq<char>, k: int) -> Option<int>
    decreases configs.len() - k,
{
    if k < 0 || k >= configs.len() {
        None
    } else if inside(configs[k].0, importer) {
        Some(k)
    } else {
        first_config(configs, importer, k + 1)
    }
}

/// The module file that `source`, imported from `importer`, names: a
/// relative specifier from the importer's directory; otherwise through the
/// settings of the deepest configuration holding the importer, then through
/// the packages.
pub open spec fn resolve_of(
    paths: Seq<Seq<char>>,
    pkgs: Seq<(Seq<char>, JsonValue)>,
    configs: Seq<(Seq<char>, ConfigView)>,
    importer: Seq<char>,
    source: Seq<char>,
) -> Option<Seq<char>> {
    if source.len() > 0 && source[0] == '.' {
        joined_file(paths, directory_of(importer), source)
    } else {
        let via_config = match first_config(configs, importer, 0) {
            Some(i) => config_resolution(paths, configs[i].1, source),
            None => None,
        };
        either(via_config, package_resolution(paths, pkgs, source, 0))
    }
}

/// The package a path belongs to: the name of the deepest package holding
/// it (its directory, or `repository` at the root, when it has no name),
/// or else its own directory (`repository` at the root).
pub open spec fn package_of(pkgs: Seq<(Seq<char>, JsonValue)>, path: Seq<char>) -> Seq<char> {
    match first_package(pkgs, path, 0) {
        Some(i) => match member_text(pkgs[i].1, "name"@) {
            Some(n) => n,
            None => if pkgs[i].0.len() == 0 {
                "repository"@
            } else {
                pkgs[i].0
            },
        },
        None => if directory_of(path).len() == 0 {
            "repository"@
        } else {
            directory_of(path)
        },
    }
}

/// The first package from `k` on whose directory holds `path`.
pub open spec fn first_package(pkgs: Seq<(Seq<char>, JsonValue)>, path: Seq<char>, k: int) -> Option<int>
    decreases pkgs.len() - k,
{
    if k < 0 || k >= pkgs.len() {
        None
    } else if inside(pkgs[k].0, path) {
        Some(k)
    } else {
        first_package(pkgs, path, k + 1)
    }
}

impl<'a> Resolver<'a> {
    /// The module paths of the snapshot.
    pub open spec fn paths(&self) -> Seq<Seq<char>> {
        module_paths(self.snapshot.modules@)
    }

    /// The packages as directory and manifest.
    pub open spec fn package_view(&self) -> Seq<(Seq<char>, JsonValue)> {
        self.packages@.map_values(|e: (String, &JsonValue)| (e.0@, *e.1))
    }

    /// The configurations as directory and settings.
    pub open spec fn config_view(&self) -> Seq<(Seq<char>, ConfigView)> {
        self.configs.deep_view()
    }
}

fn star_of(key: &str) -> (r: (bool, usize))
    ensures
        r.0 == star_at(key@, 0) is Some,
        r.1 as int == prefix_len(key@),
{
    let cs = chars_of(key);
    match star_index(&cs) {
        Some(k) => (true, k),
        None => (false, cs.len()),
    }
}

fn alias_matches(pattern: &str, source: &str) -> (r: Option<String>)
    ensures
        match r {
            Some(t) => alias_match(pattern@, source@) == Some(t@),
            None => alias_match(pattern@, source@) is None,
        },
{
    let (star, _) = star_of(pattern);
    if star {
        match_star(pattern, source)
    } else if str_is(pattern, source) {
        let e = String::new();
        assert(e@ =~= Seq::<char>::empty());
        Some(e)
    } else {
        None
    }
}

fn choose_alias(aliases: &Vec<(String, (String, Vec<String>))>, source: &str) -> (r: Option<usize>)
    ensures
        index_of_alias(r) == best_alias(aliases.deep_view(), source@, aliases@.len() as int),
        r matches Some(i) ==> i < aliases@.len(),
{
    let ghost av = aliases.deep_view();
    let mut best: Option<usize> = None;
    let mut k: usize = 0;
    while k < aliases.len()
        invariant
            k <= aliases@.len(),
            av == aliases.deep_view(),
            index_of_alias(best) == best_alias(av, source@, k as int),
            best matches Some(i) ==> i < k,
        decreases aliases@.len() - k,
    {
        let key = aliases[k].0.as_str();
        assert(av[k as int].0 == aliases@[k as int].0@);
        let matched = match alias_matches(key, source) {
            Some(_) => true,
            None => false,
        };
        if matched {
            let better = match best {
                None => true,
                Some(j) => {
                    assert(av[j as int].0 == aliases@[j as int].0@);
                    let (sa, pa) = star_of(key);
                    let (sb, pb) = star_of(aliases[j].0.as_str());
                    (!sa && sb) || (sa == sb && pa > pb)
                },
            };
            if better {
                best = Some(k);
            }
        }
        k = k + 1;
    }
    best
}

/// An optional index as an integer.
pub open spec fn index_of_alias(o: Option<usize>) -> Option<int> {
    match o {
        Some(i) => Some(i as int),
        None => None,
    }
}

fn first_alias_target(modules: &Vec<(String, Module)>, base: &String, targets: &Vec<String>, star: &str) -> (r: Option<String>)
    ensures
        match r {
            Some(f) => alias_targets(module_paths(modules@), base@, targets.deep_view(), star@, 0) == Some(f@),
            None => alias_targets(module_paths(modules@), base@, targets.deep_view(), star@, 0) is None,
        },
{
    let ghost tv = targets.deep_view();
    let mut k: usize = 0;
    while k < targets.len()
        invariant
            k <= targets@.len(),
            tv == targets.deep_view(),
            alias_targets(module_paths(modules@), base@, tv, star@, 0) == alias_targets(module_paths(modules@), base@, tv, star@, k as int),
        decreases targets@.len() - k,
    {
        assert(tv[k as int] == targets@[k as int]@);
        let replaced = star_replaced(targets[k].as_str(), star);
        match joined_module(modules, base.as_str(), replaced.as_str()) {
            Some(f) => return Some(f),
            None => {},
        }
        k = k + 1;
    }
    None
}

fn through_config(modules: &Vec<(String, Module)>, cfg: &ConfigPaths, source: &str) -> (r: Option<String>)
    ensures
        match r {
            Some(f) => config_resolution(module_paths(modules@), cfg.deep_view(), source@) == Some(f@),
            None => config_resolution(module_paths(modules@), cfg.deep_view(), source@) is None,
        },
{
    match choose_alias(&cfg.aliases, source) {
        Some(i) => {
            assert(cfg.aliases.deep_view()[i as int] == cfg.aliases@[i as int].deep_view());
            match alias_matches(cfg.aliases[i].0.as_str(), source) {
                Some(star) => match first_alias_target(modules, &cfg.aliases[i].1.0, &cfg.aliases[i].1.1, star.as_str()) {
                    Some(f) => return Some(f),
                    None => {},
                },
                None => {},
            }
        },
        None => {},
    }
    match &cfg.base {
        Some(b) => joined_module(modules, b.as_str(), source),
        None => None,
    }
}

fn text_prefix(s: &str, p: &str) -> (b: bool)
    ensures
        b == p@.is_prefix_of(s@),
{
    crate::radar::starts_with_text(&chars_of(s), p)
}

impl<'a> Resolver<'a> {
    fn config_for(&self, importer: &str) -> (r: Option<usize>)
        ensures
            index_of_alias(r) == first_config(self.config_view(), importer@, 0),
            r matches Some(i) ==> i < self.configs@.len(),
    {
        let ghost cv = self.config_view();
        let mut k: usize = 0;
        while k < self.configs.len()
            invariant
                k <= self.configs@.len(),
                cv == self.config_view(),
                first_config(cv, importer@, 0) == first_config(cv, importer@, k as int),
            decreases self.configs@.len() - k,
        {
            assert(cv[k as int].0 == self.configs@[k as int].0@);
            if contains(self.configs[k].0.as_str(), importer) {
                return Some(k);
            }
            k = k + 1;
        }
        None
    }

    fn through_packages(&self, source: &str) -> (r: Option<String>)
        ensures
            match r {
                Some(f) => package_resolution(self.paths(), self.package_view(), source@, 0) == Some(f@),
                None => package_resolution(self.paths(), self.package_view(), source@, 0) is None,
            },
    {
        let modules = &self.snapshot.modules;
        let sc = chars_of(source);
        let ghost pv = self.package_view();
        let mut j: usize = 0;
        while j < self.packages.len()
            invariant
                j <= self.packages@.len(),
                pv == self.package_view(),
                sc@ == source@,
                modules == &self.snapshot.modules,
                package_resolution(self.paths(), pv, source@, 0) == package_resolution(self.paths(), pv, source@, j as int),
            decreases self.packages@.len() - j,
        {
            let (dir, value) = &self.packages[j];
            assert(pv[j as int] == (dir@, **value));
            let name = match value.get("name") {
                Some(n) => n.as_text(),
                None => None,
            };
            match name {
                Some(name) => {
                    if str_is(source, name.as_str()) {
                        return package_module(modules, dir.as_str(), value, ".");
                    }
                    let nc = chars_of(name.as_str());
                    if text_prefix(source, name.as_str()) && sc.len() > nc.len() && sc[nc.len()] == '/' {
                        let mut sub = String::new();
                        sub.append("./");
                        let rest = string_of(&sc, nc.len() + 1, sc.len());
                        assert(rest@ =~= source@.skip(name@.len() + 1int));
                        sub.append(rest.as_str());
                        return package_module(modules, dir.as_str(), value, sub.as_str());
                    }
                },
                None => {},
            }
            j = j + 1;
        }
        None
    }

    /// The module file that `source`, imported from `importer`, names (see
    /// [`resolve_of`]).
    pub fn resolve(&self, importer: &str, source: &str) -> (r: Option<String>)
        ensures
            match r {
                Some(f) => resolve_of(self.paths(), self.package_view(), self.config_view(), importer@, source@) == Some(f@),
                None => resolve_of(self.paths(), self.package_view(), self.config_view(), importer@, source@) is None,
            },
    {
        let modules = &self.snapshot.modules;
        let sc = chars_of(source);
        if sc.len() > 0 && sc[0] == '.' {
            let dir = directory(importer);
            return joined_module(modules, dir.as_str(), source);
        }
        match self.config_for(importer) {
            Some(i) => {
                assert(self.config_view()[i as int].1 == self.configs@[i as int].1.deep_view());
                match through_config(modules, &self.configs[i].1, source) {
                    Some(f) => return Some(f),
                    None => {},
                }
            },
            None => {},
        }
        self.through_packages(source)
    }
}

/// `path` is an entry point of some package.
pub open spec fn entry_in(paths: Seq<Seq<char>>, pkgs: Seq<(Seq<char>, JsonValue)>, path: Seq<char>) -> bool {
    exists|i: int| 0 <= i < pkgs.len() && #[trigger] entry_of(paths, pkgs[i].0, pkgs[i].1, path)
}

/// The packages of the configuration files: each `package.json` with its
/// directory, in path order.
pub open spec fn package_entries(meta: Seq<(String, JsonValue)>) -> Seq<(Seq<char>, JsonValue)>
    decreases meta.len(),
{
    if meta.len() == 0 {
        Seq::empty()
    } else {
        package_entries(meta.drop_last()) + if file_name(meta.last().0@) == Some("package.json"@) {
            seq![(directory_of(meta.last().0@), meta.last().1)]
        } else {
            Seq::empty()
        }
    }
}

/// A compiler configuration file name.
pub open spec fn config_file(path: Seq<char>) -> bool {
    file_name(path) == Some("tsconfig.json"@) || file_name(path) == Some("jsconfig.json"@)
}

/// The compiler configurations among `meta` with their directories, each
/// read against all configuration files `all`, in path order.
pub open spec fn config_entries(all: Seq<(String, JsonValue)>, meta: Seq<(String, JsonValue)>) -> Seq<(Seq<char>, ConfigView)>
    decreases meta.len(),
{
    if meta.len() == 0 {
        Seq::empty()
    } else {
        config_entries(all, meta.drop_last()) + if config_file(meta.last().0@) {
            seq![(directory_of(meta.last().0@), config_of(all, meta.last().0@, Seq::empty(), all.len() as nat).0)]
        } else {
            Seq::empty()
        }
    }
}

/// The length in bytes of a text.
pub open spec fn byte_len(s: Seq<char>) -> nat {
    encode_utf8(s).len()
}

/// `e` placed after every entry whose directory is at least as long.
pub open spec fn deeper_insert<V>(s: Seq<(Seq<char>, V)>, e: (Seq<char>, V)) -> Seq<(Seq<char>, V)>
    decreases s.len(),
{
    if s.len() == 0 {
        seq![e]
    } else if byte_len(s[0].0) >= byte_len(e.0) {
        seq![s[0]] + deeper_insert(s.drop_first(), e)
    } else {
        seq![e] + s
    }
}

/// The entries with the longest directories first, entries with directories
/// of one length in their order (a stable sort).
pub open spec fn deepest_first<V>(s: Seq<(Seq<char>, V)>) -> Seq<(Seq<char>, V)>
    decreases s.len(),
{
    if s.len() == 0 {
        Seq::empty()
    } else {
        deeper_insert(deepest_first(s.drop_last()), s.last())
    }
}

proof fn lemma_insert_skip<V>(s: Seq<(Seq<char>, V)>, e: (Seq<char>, V), i: int)
    requires
        0 <= i <= s.len(),
        forall|j: int| 0 <= j < i ==> byte_len(#[trigger] s[j].0) >= byte_len(e.0),
    ensures
        deeper_insert(s, e) == s.take(i) + deeper_insert(s.skip(i), e),
    decreases i,
{
    if i == 0 {
        assert(s.skip(0) =~= s);
        assert(s.take(0) + deeper_insert(s.skip(0), e) =~= deeper_insert(s, e));
    } else {
        assert(byte_len(s[0].0) >= byte_len(e.0));
        lemma_insert_skip(s.drop_first(), e, i - 1);
        assert(s.drop_first().skip(i - 1) =~= s.skip(i));
        assert(seq![s[0]] + s.drop_first().take(i - 1) =~= s.take(i));
        assert(seq![s[0]] + (s.drop_first().take(i - 1) + deeper_insert(s.skip(i), e)) =~= s.take(i) + deeper_insert(s.skip(i), e));
    }
}

fn byte_count(s: &String) -> (n: usize)
    ensures
        n == byte_len(s@),
{
    s.as_str().as_bytes().len()
}

fn insert_package<'b>(v: &mut Vec<(String, &'b JsonValue)>, dir: String, value: &'b JsonValue)
    ensures
        final(v)@.map_values(|e: (String, &JsonValue)| (e.0@, *e.1)) == deeper_insert(
            old(v)@.map_values(|e: (String, &JsonValue)| (e.0@, *e.1)),
            (dir@, *value),
        ),
{
    let ghost s = old(v)@.map_values(|e: (String, &JsonValue)| (e.0@, *e.1));
    let ghost e = (dir@, *value);
    let n = byte_count(&dir);
    let mut i: usize = 0;
    while i < v.len() && byte_count(&v[i].0) >= n
        invariant
            i <= v@.len(),
            v@ == old(v)@,
            n == byte_len(dir@),
            e.0 == dir@,
            s == v@.map_values(|e: (String, &JsonValue)| (e.0@, *e.1)),
            forall|j: int| 0 <= j < i ==> byte_len(#[trigger] s[j].0) >= byte_len(e.0),
        decreases v@.len() - i,
    {
        assert(s[i as int].0 == v@[i as int].0@);
        i = i + 1;
    }
    proof {
        lemma_insert_skip(s, e, i as int);
        if i < v@.len() {
            assert(s[i as int].0 == v@[i as int].0@);
            assert(s.skip(i as int)[0] == s[i as int]);
        }
    }
    v.insert(i, (dir, value));
    assert(v@.map_values(|e: (String, &JsonValue)| (e.0@, *e.1)) =~= s.take(i as int) + (seq![e] + s.skip(i as int)));
}

fn insert_config(v: &mut Vec<(String, ConfigPaths)>, dir: String, value: ConfigPaths)
    ensures
        final(v).deep_view() == deeper_insert(old(v).deep_view(), (dir@, value.deep_view())),
{
    let ghost s = old(v).deep_view();
    let ghost e = (dir@, value.deep_view());
    let n = byte_count(&dir);
    let mut i: usize = 0;
    while i < v.len() && byte_count(&v[i].0) >= n
        invariant
            i <= v@.len(),
            v@ == old(v)@,
            n == byte_len(dir@),
            e.0 == dir@,
            s == v.deep_view(),
            forall|j: int| 0 <= j < i ==> byte_len(#[trigger] s[j].0) >= byte_len(e.0),
        decreases v@.len() - i,
    {
        assert(s[i as int].0 == v@[i as int].0@);
        i = i + 1;
    }
    proof {
        lemma_insert_skip(s, e, i as int);
        if i < v@.len() {
            assert(s[i as int].0 == v@[i as int].0@);
            assert(s.skip(i as int)[0] == s[i as int]);
        }
    }
    v.insert(i, (dir, value));
    assert(v.deep_view() =~= s.take(i as int) + (seq![e] + s.skip(i as int)));
}

fn named(path: &String, name: &str) -> (b: bool)
    ensures
        b == (file_name(path@) == Some(name@)),
{
    match file_name_of(path.as_str()) {
        Some(n) => chars_are(&n, name),
        None => false,
    }
}

impl<'a> Resolver<'a> {
    /// The resolver of a snapshot: its packages and compiler
    /// configurations, the deepest directories first.
    pub fn new(snapshot: &'a Snapshot) -> (r: Resolver<'a>)
        ensures
            r.snapshot == snapshot,
            r.package_view() == deepest_first(package_entries(snapshot.metadata@)),
            r.config_view() == deepest_first(config_entries(snapshot.metadata@, snapshot.metadata@)),
    {
        let meta = &snapshot.metadata;
        let ghost all = meta@;
        let mut packages: Vec<(String, &'a JsonValue)> = Vec::new();
        let mut configs: Vec<(String, ConfigPaths)> = Vec::new();
        let mut k: usize = 0;
        assert(all.take(0) =~= Seq::<(String, JsonValue)>::empty());
        assert(packages@.map_values(|e: (String, &JsonValue)| (e.0@, *e.1)) =~= Seq::<(Seq<char>, JsonValue)>::empty());
        assert(configs.deep_view() =~= Seq::<(Seq<char>, ConfigView)>::empty());
        while k < meta.len()
            invariant
                k <= all.len(),
                all == meta@,
                meta == &snapshot.metadata,
                packages@.map_values(|e: (String, &JsonValue)| (e.0@, *e.1)) == deepest_first(package_entries(all.take(k as int))),
                configs.deep_view() == deepest_first(config_entries(all, all.take(k as int))),
            decreases all.len() - k,
        {
            let ghost pre = all.take(k as int);
            assert(all.take(k + 1).drop_last() =~= pre);
            assert(all.take(k + 1).last() == all[k as int]);
            let path = &meta[k].0;
            let value = &meta[k].1;
            if named(path, "package.json") {
                insert_package(&mut packages, directory(path.as_str()), value);
                let ghost x = (directory_of(path@), *value);
                assert(package_entries(all.take(k + 1)) =~= package_entries(pre).push(x));
                assert(package_entries(pre).push(x).drop_last() =~= package_entries(pre));
            } else {
                assert(package_entries(all.take(k + 1)) =~= package_entries(pre));
            }
            if named(path, "tsconfig.json") || named(path, "jsconfig.json") {
                let mut seen: Vec<String> = Vec::new();
                assert(seen.deep_view() =~= Seq::<Seq<char>>::empty());
                let c = config(meta, path, &mut seen, meta.len());
                insert_config(&mut configs, directory(path.as_str()), c);
                let ghost x = (directory_of(path@), config_of(all, path@, Seq::empty(), all.len() as nat).0);
                assert(config_entries(all, all.take(k + 1)) =~= config_entries(all, pre).push(x));
                assert(config_entries(all, pre).push(x).drop_last() =~= config_entries(all, pre));
            } else {
                assert(config_entries(all, all.take(k + 1)) =~= config_entries(all, pre));
            }
            k = k + 1;
        }
        assert(all.take(k as int) =~= all);
        Resolver { snapshot, packages, configs }
    }

    /// The package `path` belongs to (see [`package_of`]).
    pub fn package(&self, path: &str) -> (r: String)
        ensures
            r@ == package_of(self.package_view(), path@),
    {
        let ghost pv = self.package_view();
        let mut k: usize = 0;
        proof {
            reveal_strlit("repository");
        }
        while k < self.packages.len()
            invariant
                k <= self.packages@.len(),
                pv == self.package_view(),
                first_package(pv, path@, 0) == first_package(pv, path@, k as int),
            decreases self.packages@.len() - k,
        {
            let (dir, value) = &self.packages[k];
            assert(pv[k as int] == (dir@, **value));
            if contains(dir.as_str(), path) {
                match value.get("name") {
                    Some(n) => match n.as_text() {
                        Some(t) => return t.clone(),
                        None => {},
                    },
                    None => {},
                }
                if dir.as_str().is_empty() {
                    return "repository".to_owned();
                }
                return dir.clone();
            }
            k = k + 1;
        }
        let d = directory(path);
        if d.as_str().is_empty() {
            "repository".to_owned()
        } else {
            d
        }
    }

    /// Whether `path` is an entry point of some package (see [`entry_of`]).
    pub fn is_entry(&self, path: &str) -> (b: bool)
        ensures
            b == entry_in(self.paths(), self.package_view(), path@),
    {
        let ghost pv = self.package_view();
        let mut k: usize = 0;
        while k < self.packages.len()
            invariant
                k <= self.packages@.len(),
                pv == self.package_view(),
                forall|j: int| 0 <= j < k ==> !#[trigger] entry_of(self.paths(), pv[j].0, pv[j].1, path@),
            decreases self.packages@.len() - k,
        {
            let (dir, value) = &self.packages[k];
            assert(pv[k as int] == (dir@, **value));
            if package_entry(&self.snapshot.modules, dir.as_str(), value, path) {
                assert(entry_of(self.paths(), pv[k as int].0, pv[k as int].1, path@));
                return true;
            }
            k = k + 1;
        }
        false
    }
}

/// A pair of texts: importer and target, or importer and specifier.
pub type PairView = (Seq<char>, Seq<char>);

/// The placeholder of the `i`-th import of a file that cannot be read
/// statically.
pub open spec fn dynamic_label(i: nat) -> Seq<char> {
    "<dynamic:"@ + decimal(i) + ">"@
}

/// The import edges and unresolved imports of the file `path` with module
/// specifiers `deps`, added to `acc`: a resolved import to another file is
/// an edge, one that resolves to nothing is unresolved.
pub open spec fn module_edges(
    paths: Seq<Seq<char>>,
    pkgs: Seq<(Seq<char>, JsonValue)>,
    configs: Seq<(Seq<char>, ConfigView)>,
    path: Seq<char>,
    deps: Seq<Seq<char>>,
    acc: (Seq<PairView>, Seq<PairView>),
) -> (Seq<PairView>, Seq<PairView>)
    decreases deps.len(),
{
    if deps.len() == 0 {
        acc
    } else {
        let a = module_edges(paths, pkgs, configs, path, deps.drop_last(), acc);
        let source = deps.last();
        match resolve_of(paths, pkgs, configs, path, source) {
            Some(t) => if t != path {
                (add_pair(a.0, (path, t)), a.1)
            } else {
                a
            },
            None => (a.0, add_pair(a.1, (path, source))),
        }
    }
}

/// `unknown` with a placeholder for each of the first `n` dynamic imports
/// of `path`.
pub open spec fn dynamic_unknowns(path: Seq<char>, n: nat, unknown: Seq<PairView>) -> Seq<PairView>
    decreases n,
{
    if n == 0 {
        unknown
    } else {
        add_pair(dynamic_unknowns(path, (n - 1) as nat, unknown), (path, dynamic_label((n - 1) as nat)))
    }
}

/// The import edges and unresolved imports of `modules`, each set sorted.
pub open spec fn all_edges(
    paths: Seq<Seq<char>>,
    pkgs: Seq<(Seq<char>, JsonValue)>,
    configs: Seq<(Seq<char>, ConfigView)>,
    modules: Seq<(String, Module)>,
) -> (Seq<PairView>, Seq<PairView>)
    decreases modules.len(),
{
    if modules.len() == 0 {
        (Seq::empty(), Seq::empty())
    } else {
        let a = all_edges(paths, pkgs, configs, modules.drop_last());
        let p = modules.last().0@;
        let m = modules.last().1;
        let b = module_edges(paths, pkgs, configs, p, m.dependencies.deep_view(), a);
        (b.0, dynamic_unknowns(p, m.unresolved_dynamic as nat, b.1))
    }
}

impl<'a> Resolver<'a> {
    /// The import edges between files of the snapshot, and the imports that
    /// resolve to none of them (see [`all_edges`]).
    pub fn edges(&self) -> (r: (Vec<(String, String)>, Vec<(String, String)>))
        ensures
            (r.0.deep_view(), r.1.deep_view()) == all_edges(self.paths(), self.package_view(), self.config_view(), self.snapshot.modules@),
    {
        let modules = &self.snapshot.modules;
        let ghost ms = modules@;
        let mut edges: Vec<(String, String)> = Vec::new();
        let mut unknown: Vec<(String, String)> = Vec::new();
        let mut k: usize = 0;
        assert(ms.take(0) =~= Seq::<(String, Module)>::empty());
        assert(edges.deep_view() =~= Seq::<PairView>::empty());
        assert(unknown.deep_view() =~= Seq::<PairView>::empty());
        while k < modules.len()
            invariant
                k <= ms.len(),
                ms == modules@,
                modules == &self.snapshot.modules,
                (edges.deep_view(), unknown.deep_view()) == all_edges(self.paths(), self.package_view(), self.config_view(), ms.take(k as int)),
            decreases ms.len() - k,
        {
            assert(ms.take(k + 1).drop_last() =~= ms.take(k as int));
            assert(ms.take(k + 1).last() == ms[k as int]);
            let path = &modules[k].0;
            let module = &modules[k].1;
            let deps = &module.dependencies;
            let ghost dv = deps.deep_view();
            let ghost start = (edges.deep_view(), unknown.deep_view());
            let mut d: usize = 0;
            assert(dv.take(0) =~= Seq::<Seq<char>>::empty());
            while d < deps.len()
                invariant
                    d <= deps@.len(),
                    dv == deps.deep_view(),
                    (edges.deep_view(), unknown.deep_view()) == module_edges(
                        self.paths(),
                        self.package_view(),
                        self.config_view(),
                        path@,
                        dv.take(d as int),
                        start,
                    ),
                decreases deps@.len() - d,
            {
                assert(dv.take(d + 1).drop_last() =~= dv.take(d as int));
                assert(dv.take(d + 1).last() == deps@[d as int]@);
                match self.resolve(path.as_str(), deps[d].as_str()) {
                    Some(t) => {
                        if t != *path {
                            add_pair_entry(&mut edges, path.clone(), t);
                        }
                    },
                    None => {
                        add_pair_entry(&mut unknown, path.clone(), deps[d].clone());
                    },
                }
                d = d + 1;
            }
            assert(dv.take(d as int) =~= dv);
            let ghost mid = unknown.deep_view();
            let mut i: usize = 0;
            while i < module.unresolved_dynamic
                invariant
                    i <= module.unresolved_dynamic,
                    unknown.deep_view() == dynamic_unknowns(path@, i as nat, mid),
                decreases module.unresolved_dynamic - i,
            {
                let mut label = String::new();
                label.append("<dynamic:");
                push_decimal(&mut label, i);
                label.append(">");
                assert(label@ =~= dynamic_label(i as nat));
                add_pair_entry(&mut unknown, path.clone(), label);
                i = i + 1;
            }
            k = k + 1;
        }
        assert(ms.take(k as int) =~= ms);
        (edges, unknown)
    }
}


proof fn lemma_first_module(paths: Seq<Seq<char>>, cands: Seq<Seq<char>>)
    ensures
        first_module(paths, cands) matches Some(f) ==> paths.contains(f),
    decreases cands.len(),
{
    if cands.len() > 0 && !paths.contains(cands[0]) {
        lemma_first_module(paths, cands.drop_first());
    }
}

proof fn lemma_joined_file(paths: Seq<Seq<char>>, dir: Seq<char>, path: Seq<char>)
    ensures
        joined_file(paths, dir, path) matches Some(f) ==> paths.contains(f),
{
    match joined(dir, path) {
        Some(j) => {
            if !paths.contains(j) {
                lemma_first_module(paths, candidates(script_stem(j), j));
            }
        },
        None => {},
    }
}

proof fn lemma_target_of(paths: Seq<Seq<char>>, dir: Seq<char>, v: JsonValue, star: Seq<char>)
    ensures
        target_of(paths, dir, v, star) matches Some(f) ==> paths.contains(f),
    decreases v, 0int,
{
    match v {
        JsonValue::Text(p) => lemma_joined_file(paths, dir, replace_star(p@, star)),
        JsonValue::Array(items) => lemma_targets_from(paths, dir, items, star, 0),
        JsonValue::Object(entries) => lemma_condition_target(paths, dir, entries, star, 0),
        _ => {},
    }
}

proof fn lemma_targets_from(paths: Seq<Seq<char>>, dir: Seq<char>, items: Vec<JsonValue>, star: Seq<char>, k: int)
    ensures
        targets_from(paths, dir, items, star, k) matches Some(f) ==> paths.contains(f),
    decreases items, items.len() - k,
{
    if 0 <= k < items.len() {
        lemma_target_of(paths, dir, items[k], star);
        lemma_targets_from(paths, dir, items, star, k + 1);
    }
}

proof fn lemma_condition_target(paths: Seq<Seq<char>>, dir: Seq<char>, entries: Vec<(String, JsonValue)>, star: Seq<char>, n: int)
    ensures
        condition_target(paths, dir, entries, star, n) matches Some(f) ==> paths.contains(f),
    decreases entries, 6 - n,
{
    if 0 <= n < 6 {
        match member_index(entries@, condition_key(n), 0) {
            Some(j) => if 0 <= j < entries.len() {
                lemma_target_of(paths, dir, entries[j].1, star);
            },
            None => {},
        }
        lemma_condition_target(paths, dir, entries, star, n + 1);
    }
}

proof fn lemma_field_target(paths: Seq<Seq<char>>, dir: Seq<char>, value: JsonValue, key: Seq<char>)
    ensures
        field_target(paths, dir, value, key) matches Some(f) ==> paths.contains(f),
{
    match json_get(value, key) {
        Some(x) => lemma_target_of(paths, dir, x, Seq::empty()),
        None => {},
    }
}

proof fn lemma_pattern_target(paths: Seq<Seq<char>>, dir: Seq<char>, es: Seq<(String, JsonValue)>, sub: Seq<char>, k: int)
    ensures
        pattern_target(paths, dir, es, sub, k) matches Some(f) ==> paths.contains(f),
    decreases es.len() - k,
{
    if 0 <= k < es.len() {
        match star_match(es[k].0@, sub) {
            Some(star) => lemma_target_of(paths, dir, es[k].1, star),
            None => {},
        }
        lemma_pattern_target(paths, dir, es, sub, k + 1);
    }
}

proof fn lemma_package_target(paths: Seq<Seq<char>>, dir: Seq<char>, value: JsonValue, sub: Seq<char>)
    ensures
        package_target(paths, dir, value, sub) matches Some(f) ==> paths.contains(f),
{
    lemma_field_target(paths, dir, value, "source"@);
    lemma_field_target(paths, dir, value, "module"@);
    lemma_field_target(paths, dir, value, "main"@);
    lemma_field_target(paths, dir, value, "types"@);
    lemma_joined_file(paths, dir, "index"@);
    lemma_joined_file(paths, dir, sub);
    match json_get(value, "exports"@) {
        Some(exports) => {
            lemma_field_target(paths, dir, exports, sub);
            lemma_target_of(paths, dir, exports, Seq::empty());
            match exports {
                JsonValue::Object(es) => lemma_pattern_target(paths, dir, es@, sub, 0),
                _ => {},
            }
        },
        None => {},
    }
}

proof fn lemma_alias_targets(paths: Seq<Seq<char>>, base: Seq<char>, targets: Seq<Seq<char>>, star: Seq<char>, k: int)
    ensures
        alias_targets(paths, base, targets, star, k) matches Some(f) ==> paths.contains(f),
    decreases targets.len() - k,
{
    if 0 <= k < targets.len() {
        lemma_joined_file(paths, base, replace_star(targets[k], star));
        lemma_alias_targets(paths, base, targets, star, k + 1);
    }
}

proof fn lemma_package_resolution(paths: Seq<Seq<char>>, pkgs: Seq<(Seq<char>, JsonValue)>, source: Seq<char>, k: int)
    ensures
        package_resolution(paths, pkgs, source, k) matches Some(f) ==> paths.contains(f),
    decreases pkgs.len() - k,
{
    if 0 <= k < pkgs.len() {
        lemma_package_target(paths, pkgs[k].0, pkgs[k].1, "."@);
        lemma_package_target(paths, pkgs[k].0, pkgs[k].1, "./"@ + source.skip(
            match member_text(pkgs[k].1, "name"@) {
                Some(n) => n.len() + 1int,
                None => 0int,
            },
        ));
        lemma_package_resolution(paths, pkgs, source, k + 1);
    }
}

/// Resolution names only files of the snapshot: whatever an import
/// specifier resolves to is one of the snapshot's modules.
pub proof fn resolution_stays_in_snapshot(
    paths: Seq<Seq<char>>,
    pkgs: Seq<(Seq<char>, JsonValue)>,
    configs: Seq<(Seq<char>, ConfigView)>,
    importer: Seq<char>,
    source: Seq<char>,
)
    ensures
        resolve_of(paths, pkgs, configs, importer, source) matches Some(f) ==> paths.contains(f),
{
    lemma_joined_file(paths, directory_of(importer), source);
    lemma_package_resolution(paths, pkgs, source, 0);
    match first_config(configs, importer, 0) {
        Some(i) => {
            let cfg = configs[i].1;
            match best_alias(cfg.1, source, cfg.1.len() as int) {
                Some(a) => match alias_match(cfg.1[a].0, source) {
                    Some(star) => lemma_alias_targets(paths, cfg.1[a].1.0, cfg.1[a].1.1, star, 0),
                    None => {},
                },
                None => {},
            }
            match cfg.0 {
                Some(b) => lemma_joined_file(paths, b, source),
                None => {},
            }
        },
        None => {},
    }
}


proof fn lemma_add_pair_contains(s: Seq<PairView>, p: PairView)
    ensures
        forall|x: PairView| #[trigger] add_pair(s, p).contains(x) ==> s.contains(x) || x == p,
    decreases s.len(),
{
    let r = add_pair(s, p);
    if s.len() == 0 {
        assert forall|x: PairView| #[trigger] r.contains(x) implies s.contains(x) || x == p by {
            let i = choose|i: int| 0 <= i < r.len() && r[i] == x;
        }
    } else if s[0] == p {
    } else if crate::keyed::pair_less(p, s[0]) {
        assert(r =~= seq![p] + s);
        assert forall|x: PairView| #[trigger] r.contains(x) implies s.contains(x) || x == p by {
            let i = choose|i: int| 0 <= i < r.len() && r[i] == x;
            if i > 0 {
                assert(s[i - 1] == x);
            }
        }
    } else {
        lemma_add_pair_contains(s.drop_first(), p);
        let rt = add_pair(s.drop_first(), p);
        assert(r =~= seq![s[0]] + rt);
        assert forall|x: PairView| #[trigger] r.contains(x) implies s.contains(x) || x == p by {
            let i = choose|i: int| 0 <= i < r.len() && r[i] == x;
            if i == 0 {
                assert(s[0] == x);
            } else {
                assert(rt[i - 1] == x);
                assert(rt.contains(x));
                if s.drop_first().contains(x) {
                    let m = choose|m: int| 0 <= m < s.drop_first().len() && s.drop_first()[m] == x;
                    assert(s[m + 1] == x);
                }
            }
        }
    }
}

proof fn lemma_module_edges(
    paths: Seq<Seq<char>>,
    pkgs: Seq<(Seq<char>, JsonValue)>,
    configs: Seq<(Seq<char>, ConfigView)>,
    path: Seq<char>,
    deps: Seq<Seq<char>>,
    acc: (Seq<PairView>, Seq<PairView>),
)
    requires
        forall|x: PairView| #[trigger] acc.0.contains(x) ==> x.0 != x.1,
    ensures
        forall|x: PairView| #[trigger] module_edges(paths, pkgs, configs, path, deps, acc).0.contains(x) ==> x.0 != x.1,
    decreases deps.len(),
{
    if deps.len() > 0 {
        lemma_module_edges(paths, pkgs, configs, path, deps.drop_last(), acc);
        let a = module_edges(paths, pkgs, configs, path, deps.drop_last(), acc);
        match resolve_of(paths, pkgs, configs, path, deps.last()) {
            Some(t) => if t != path {
                lemma_add_pair_contains(a.0, (path, t));
            },
            None => {},
        }
    }
}

proof fn lemma_all_edges(
    paths: Seq<Seq<char>>,
    pkgs: Seq<(Seq<char>, JsonValue)>,
    configs: Seq<(Seq<char>, ConfigView)>,
    modules: Seq<(String, Module)>,
)
    ensures
        forall|x: PairView| #[trigger] all_edges(paths, pkgs, configs, modules).0.contains(x) ==> x.0 != x.1,
    decreases modules.len(),
{
    if modules.len() > 0 {
        lemma_all_edges(paths, pkgs, configs, modules.drop_last());
        let a = all_edges(paths, pkgs, configs, modules.drop_last());
        lemma_module_edges(paths, pkgs, configs, modules.last().0@, modules.last().1.dependencies.deep_view(), a);
    }
}

/// An import edge joins two different files: a file that imports itself
/// adds no edge.
pub proof fn import_edges_join_distinct_files(
    paths: Seq<Seq<char>>,
    pkgs: Seq<(Seq<char>, JsonValue)>,
    configs: Seq<(Seq<char>, ConfigView)>,
    modules: Seq<(String, Module)>,
    i: int,
)
    requires
        0 <= i < all_edges(paths, pkgs, configs, modules).0.len(),
    ensures
        all_edges(paths, pkgs, configs, modules).0[i].0 != all_edges(paths, pkgs, configs, modules).0[i].1,
{
    lemma_all_edges(paths, pkgs, configs, modules);
    let e = all_edges(paths, pkgs, configs, modules).0;
    assert(e.contains(e[i]));
}

} // verus!
