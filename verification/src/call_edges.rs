//! Conservative static call resolution, independently for each snapshot: a
//! call goes to a function of the same file along the lexical scopes, or
//! through an import and the re-exports behind it to exactly one function.
use vstd::prelude::*;
use vstd::string::StringExecFns;
use crate::keyed::{add_call, add_call_entry, add_pair, add_pair_entry, get_entry, lookup};
use crate::radar::{contains_string, string_views};
use crate::radar_parse::ParsedFunction;
use crate::radar_parse::{FunctionView, Module};
use crate::resolve::{str_is, JsonValue};
use crate::resolver::{resolve_of, ConfigView, PairView, Resolver};
use crate::text::{chars_of, push_char, string_of};

verus! {

/// The index of the last `c` among the first `n` characters.
pub open spec fn last_index(s: Seq<char>, c: char, n: int) -> Option<int>
    decreases n,
{
    if n <= 0 {
        None
    } else if s[n - 1] == c {
        Some(n - 1)
    } else {
        last_index(s, c, n - 1)
    }
}

/// The index of the first `c` from `from` on.
pub open spec fn first_index(s: Seq<char>, c: char, from: int) -> Option<int>
    decreases s.len() - from,
{
    if from < 0 || from >= s.len() {
        None
    } else if s[from] == c {
        Some(from)
    } else {
        first_index(s, c, from + 1)
    }
}

/// The scope around a qualified name: what precedes its last dot, or the
/// top level.
pub open spec fn outer(scope: Seq<char>) -> Seq<char> {
    match last_index(scope, '.', scope.len() as int) {
        Some(i) => scope.take(i),
        None => Seq::empty(),
    }
}

/// The first segment of a dotted name.
pub open spec fn head(name: Seq<char>) -> Seq<char> {
    match first_index(name, '.', 0) {
        Some(i) => name.take(i),
        None => name,
    }
}

/// The rest of a dotted name after its first segment, dot included.
pub open spec fn tail(name: Seq<char>) -> Seq<char> {
    match first_index(name, '.', 0) {
        Some(i) => name.skip(i),
        None => Seq::empty(),
    }
}

/// The callable named `name` in a module's table.
pub open spec fn function_named(m: Module, name: Seq<char>) -> Option<FunctionView> {
    lookup(m.functions.deep_view(), name)
}

/// The callable `scope` binds `base` itself (a parameter or a local).
pub open spec fn shadowed_in(m: Module, scope: Seq<char>, base: Seq<char>) -> bool {
    match function_named(m, scope) {
        Some(f) => f.4.contains(base),
        None => false,
    }
}

/// Some enclosing callable of `scope` binds `base` itself.
pub open spec fn ancestors_shadow(m: Module, scope: Seq<char>, base: Seq<char>) -> bool
    decreases scope.len(),
{
    match last_index(scope, '.', scope.len() as int) {
        Some(i) => if 0 <= i < scope.len() {
            shadowed_in(m, scope.take(i), base) || ancestors_shadow(m, scope.take(i), base)
        } else {
            false
        },
        None => false,
    }
}

/// The name a call of `target` from `scope` has in the file: `this.x`
/// names a member of the enclosing owner, anything else a name inside
/// `scope`.
pub open spec fn scoped_name(scope: Seq<char>, target: Seq<char>) -> Option<Seq<char>> {
    if "this."@.is_prefix_of(target) {
        match last_index(scope, '.', scope.len() as int) {
            Some(i) => Some(scope.take(i) + seq!['.'] + target.skip(5)),
            None => None,
        }
    } else if scope.len() == 0 {
        Some(target)
    } else {
        Some(scope + seq!['.'] + target)
    }
}

/// The callable of the same file that a call of `target` from `scope`
/// reaches, looking outwards scope by scope and stopping at a scope whose
/// callable shadows `base`.
pub open spec fn lexical(m: Module, scope: Seq<char>, target: Seq<char>, base: Seq<char>) -> Option<Seq<char>>
    decreases scope.len(),
{
    let name = scoped_name(scope, target);
    if name is Some && function_named(m, name.unwrap()) is Some {
        name
    } else if scope.len() == 0 {
        None
    } else {
        let parent = outer(scope);
        if shadowed_in(m, parent, base) {
            None
        } else if parent.len() < scope.len() {
            lexical(m, parent, target, base)
        } else {
            None
        }
    }
}

/// The module stored under `path`.
pub open spec fn module_at(modules: Seq<(String, Module)>, path: Seq<char>) -> Option<Module>
    decreases modules.len(),
{
    if modules.len() == 0 {
        None
    } else if modules[0].0@ == path {
        Some(modules[0].1)
    } else {
        module_at(modules.drop_first(), path)
    }
}

/// One export lookup of `name` in module `m` at `path`: the pairs to look
/// at next (a re-export's source, an imported binding's source, or each
/// star re-export) and the function it names here, if any.
pub open spec fn export_step(
    paths: Seq<Seq<char>>,
    pkgs: Seq<(Seq<char>, JsonValue)>,
    configs: Seq<(Seq<char>, ConfigView)>,
    m: Module,
    path: Seq<char>,
    name: Seq<char>,
) -> (Seq<PairView>, Option<PairView>) {
    let base = head(name);
    let suffix = tail(name);
    match lookup(m.exports.deep_view(), base) {
        Some(e) => match e.0 {
            Some(source) => match resolve_of(paths, pkgs, configs, path, source) {
                Some(t) => (seq![(t, e.1 + suffix)], None),
                None => (Seq::empty(), None),
            },
            None => match lookup(m.imports.deep_view(), e.1) {
                Some(i) => match resolve_of(paths, pkgs, configs, path, i.0) {
                    Some(t) => (seq![(t, i.1 + suffix)], None),
                    None => (Seq::empty(), None),
                },
                None => if function_named(m, e.1 + suffix) is Some {
                    (Seq::empty(), Some((path, e.1 + suffix)))
                } else {
                    (Seq::empty(), None)
                },
            },
        },
        None => if base != "default"@ {
            (star_sources(paths, pkgs, configs, path, name, m.export_stars.deep_view()), None)
        } else {
            (Seq::empty(), None)
        },
    }
}

/// `name` in each module that a star re-export of `path` resolves to.
pub open spec fn star_sources(
    paths: Seq<Seq<char>>,
    pkgs: Seq<(Seq<char>, JsonValue)>,
    configs: Seq<(Seq<char>, ConfigView)>,
    path: Seq<char>,
    name: Seq<char>,
    stars: Seq<Seq<char>>,
) -> Seq<PairView>
    decreases stars.len(),
{
    if stars.len() == 0 {
        Seq::empty()
    } else {
        star_sources(paths, pkgs, configs, path, name, stars.drop_last()) + match resolve_of(paths, pkgs, configs, path, stars.last()) {
            Some(t) => seq![(t, name)],
            None => Seq::empty(),
        }
    }
}

/// The search for the functions an exported name stands for: the pairs
/// still to look at (the last first), those looked at, and the functions
/// found. `None` when a pair names a file that has no module. At most
/// `fuel` pairs are taken.
pub open spec fn explore(
    modules: Seq<(String, Module)>,
    paths: Seq<Seq<char>>,
    pkgs: Seq<(Seq<char>, JsonValue)>,
    configs: Seq<(Seq<char>, ConfigView)>,
    pending: Seq<PairView>,
    seen: Seq<PairView>,
    found: Seq<PairView>,
    fuel: nat,
) -> Option<Seq<PairView>>
    decreases fuel,
{
    if pending.len() == 0 || fuel == 0 {
        Some(found)
    } else {
        let p = pending.last();
        let rest = pending.drop_last();
        if seen.contains(p) {
            explore(modules, paths, pkgs, configs, rest, seen, found, (fuel - 1) as nat)
        } else {
            match module_at(modules, p.0) {
                None => None,
                Some(m) => {
                    let step = export_step(paths, pkgs, configs, m, p.0, p.1);
                    explore(
                        modules,
                        paths,
                        pkgs,
                        configs,
                        rest + step.0,
                        seen.push(p),
                        match step.1 {
                            Some(c) => add_pair(found, c),
                            None => found,
                        },
                        (fuel - 1) as nat,
                    )
                },
            }
        }
    }
}

/// The one function that `name`, exported by the file `path`, stands for
/// through re-exports and imported bindings; none when there is none, or
/// more than one (ambiguous star re-exports).
pub open spec fn exported_of(
    modules: Seq<(String, Module)>,
    paths: Seq<Seq<char>>,
    pkgs: Seq<(Seq<char>, JsonValue)>,
    configs: Seq<(Seq<char>, ConfigView)>,
    path: Seq<char>,
    name: Seq<char>,
) -> Option<PairView> {
    match explore(modules, paths, pkgs, configs, seq![(path, name)], Seq::empty(), Seq::empty(), usize::MAX as nat) {
        Some(found) => if found.len() == 1 {
            Some(found[0])
        } else {
            None
        },
        None => None,
    }
}

/// The function that a call of `target` from `caller` (with record `f`) in
/// module `m` at `path` reaches: none when `f` binds the call's first
/// segment itself; a function of the file along the scopes; or, unless an
/// enclosing callable binds the first segment, the function an imported
/// binding stands for.
pub open spec fn call_target(
    modules: Seq<(String, Module)>,
    paths: Seq<Seq<char>>,
    pkgs: Seq<(Seq<char>, JsonValue)>,
    configs: Seq<(Seq<char>, ConfigView)>,
    path: Seq<char>,
    m: Module,
    caller: Seq<char>,
    f: FunctionView,
    target: Seq<char>,
) -> Option<PairView> {
    let base = head(target);
    if f.4.contains(base) {
        None
    } else {
        match lexical(m, caller, target, base) {
            Some(n) => Some((path, n)),
            None => if ancestors_shadow(m, caller, base) {
                None
            } else {
                match lookup(m.imports.deep_view(), base) {
                    None => None,
                    Some(i) => {
                        let suffix = target.skip(base.len() as int);
                        let name = if i.1 == "*"@ {
                            if suffix.len() > 0 && suffix[0] == '.' {
                                Some(suffix.skip(1))
                            } else {
                                None
                            }
                        } else {
                            Some(i.1 + suffix)
                        };
                        match name {
                            None => None,
                            Some(n) => match resolve_of(paths, pkgs, configs, path, i.0) {
                                None => None,
                                Some(t) => exported_of(modules, paths, pkgs, configs, t, n),
                            },
                        }
                    },
                }
            },
        }
    }
}

fn last_dot(s: &Vec<char>) -> (r: Option<usize>)
    ensures
        match r {
            Some(i) => last_index(s@, '.', s@.len() as int) == Some(i as int) && i < s@.len(),
            None => last_index(s@, '.', s@.len() as int) is None,
        },
{
    let mut n = s.len();
    while n > 0 && s[n - 1] != '.'
        invariant
            n <= s@.len(),
            last_index(s@, '.', s@.len() as int) == last_index(s@, '.', n as int),
        decreases n,
    {
        n = n - 1;
    }
    if n == 0 {
        None
    } else {
        Some(n - 1)
    }
}

fn first_dot(s: &Vec<char>) -> (r: Option<usize>)
    ensures
        match r {
            Some(i) => first_index(s@, '.', 0) == Some(i as int) && i < s@.len(),
            None => first_index(s@, '.', 0) is None,
        },
{
    let mut i: usize = 0;
    while i < s.len()
        invariant
            i <= s@.len(),
            first_index(s@, '.', 0) == first_index(s@, '.', i as int),
        decreases s@.len() - i,
    {
        if s[i] == '.' {
            return Some(i);
        }
        i = i + 1;
    }
    None
}

fn outer_of(scope: &str) -> (r: String)
    ensures
        r@ == outer(scope@),
{
    let cs = chars_of(scope);
    match last_dot(&cs) {
        Some(i) => {
            assert(cs@.subrange(0, i as int) =~= cs@.take(i as int));
            string_of(&cs, 0, i)
        },
        None => String::new(),
    }
}

fn split_name(name: &str) -> (r: (String, String))
    ensures
        r.0@ == head(name@),
        r.1@ == tail(name@),
{
    let cs = chars_of(name);
    let n = cs.len();
    match first_dot(&cs) {
        Some(i) => {
            assert(cs@.subrange(0, i as int) =~= cs@.take(i as int));
            assert(cs@.subrange(i as int, n as int) =~= cs@.skip(i as int));
            (string_of(&cs, 0, i), string_of(&cs, i, n))
        },
        None => (name.to_owned(), String::new()),
    }
}

fn function_in<'m>(m: &'m Module, name: &String) -> (r: Option<&'m ParsedFunction>)
    ensures
        match r {
            Some(f) => function_named(*m, name@) == Some(f.deep_view()),
            None => function_named(*m, name@) is None,
        },
{
    get_entry(&m.functions, name)
}

fn binds(names: &Vec<String>, x: &String) -> (b: bool)
    ensures
        b == names.deep_view().contains(x@),
{
    assert(string_views(names@) =~= names.deep_view());
    contains_string(names, x)
}

fn shadowed(m: &Module, scope: &String, base: &String) -> (b: bool)
    ensures
        b == shadowed_in(*m, scope@, base@),
{
    match function_in(m, scope) {
        Some(f) => binds(&f.shadows, base),
        None => false,
    }
}

fn scoped(scope: &String, target: &String) -> (r: Option<String>)
    ensures
        match r {
            Some(n) => scoped_name(scope@, target@) == Some(n@),
            None => scoped_name(scope@, target@) is None,
        },
{
    let tc = chars_of(target.as_str());
    if crate::radar::starts_with_text(&tc, "this.") {
        proof {
            reveal_strlit("this.");
        }
        let sc = chars_of(scope.as_str());
        match last_dot(&sc) {
            Some(i) => {
                let mut n = string_of(&sc, 0, i);
                push_char(&mut n, '.');
                let member = string_of(&tc, 5, tc.len());
                n.append(member.as_str());
                assert(sc@.subrange(0, i as int) =~= sc@.take(i as int));
                assert(tc@.subrange(5, tc@.len() as int) =~= tc@.skip(5));
                assert(n@ =~= sc@.take(i as int) + seq!['.'] + tc@.skip(5));
                Some(n)
            },
            None => None,
        }
    } else if scope.as_str().is_empty() {
        Some(target.clone())
    } else {
        let mut n = scope.clone();
        push_char(&mut n, '.');
        n.append(target.as_str());
        Some(n)
    }
}

fn lexical_target(m: &Module, caller: &String, target: &String, base: &String) -> (r: Option<String>)
    ensures
        match r {
            Some(n) => lexical(*m, caller@, target@, base@) == Some(n@),
            None => lexical(*m, caller@, target@, base@) is None,
        },
{
    let mut scope = caller.clone();
    loop
        invariant
            lexical(*m, caller@, target@, base@) == lexical(*m, scope@, target@, base@),
        decreases scope@.len(),
    {
        match scoped(&scope, target) {
            Some(n) => {
                if function_in(m, &n).is_some() {
                    return Some(n);
                }
            },
            None => {},
        }
        if scope.as_str().is_empty() {
            return None;
        }
        let parent = outer_of(scope.as_str());
        if shadowed(m, &parent, base) {
            return None;
        }
        proof {
            let sc = scope@;
            match last_index(sc, '.', sc.len() as int) {
                Some(i) => {
                    lemma_last_index_bound(sc, '.', sc.len() as int);
                },
                None => {},
            }
        }
        scope = parent;
    }
}

proof fn lemma_last_index_bound(s: Seq<char>, c: char, n: int)
    requires
        n <= s.len(),
    ensures
        last_index(s, c, n) matches Some(i) ==> 0 <= i < n,
    decreases n,
{
    if n > 0 && s[n - 1] != c {
        lemma_last_index_bound(s, c, n - 1);
    }
}

pub(crate) fn module_in<'m>(modules: &'m Vec<(String, Module)>, path: &String) -> (r: Option<&'m Module>)
    ensures
        match r {
            Some(m) => module_at(modules@, path@) == Some(*m),
            None => module_at(modules@, path@) is None,
        },
{
    let ghost ms = modules@;
    let mut i: usize = 0;
    assert(ms.skip(0) =~= ms);
    while i < modules.len()
        invariant
            i <= ms.len(),
            ms == modules@,
            module_at(ms, path@) == module_at(ms.skip(i as int), path@),
        decreases ms.len() - i,
    {
        assert(ms.skip(i as int)[0] == ms[i as int]);
        if modules[i].0 == *path {
            return Some(&modules[i].1);
        }
        assert(ms.skip(i as int).drop_first() =~= ms.skip(i + 1));
        i = i + 1;
    }
    None
}

fn joined_name(a: &String, b: &String) -> (r: String)
    ensures
        r@ == a@ + b@,
{
    let mut r = a.clone();
    r.append(b.as_str());
    r
}

impl<'a> Resolver<'a> {
    /// The resolver's view of its snapshot, as [`resolve_of`] reads it.
    pub open spec fn resolves(&self, importer: Seq<char>, source: Seq<char>) -> Option<Seq<char>> {
        resolve_of(self.paths(), self.package_view(), self.config_view(), importer, source)
    }
}

fn export_lookup(resolver: &Resolver, m: &Module, path: &String, name: &String) -> (r: (Vec<(String, String)>, Option<(String, String)>))
    ensures
        (r.0.deep_view(), r.1.deep_view()) == export_step(resolver.paths(), resolver.package_view(), resolver.config_view(), *m, path@, name@),
{
    let (base, suffix) = split_name(name.as_str());
    let mut next: Vec<(String, String)> = Vec::new();
    assert(next.deep_view() =~= Seq::<PairView>::empty());
    match get_entry(&m.exports, &base) {
        Some(e) => {
            match &e.0 {
                Some(source) => {
                    match resolver.resolve(path.as_str(), source.as_str()) {
                        Some(t) => {
                            next.push((t, joined_name(&e.1, &suffix)));
                            assert(next.deep_view() =~= seq![(next@[0].0@, next@[0].1@)]);
                        },
                        None => {},
                    }
                    (next, None)
                },
                None => match get_entry(&m.imports, &e.1) {
                    Some(i) => {
                        match resolver.resolve(path.as_str(), i.0.as_str()) {
                            Some(t) => {
                                next.push((t, joined_name(&i.1, &suffix)));
                                assert(next.deep_view() =~= seq![(next@[0].0@, next@[0].1@)]);
                            },
                            None => {},
                        }
                        (next, None)
                    },
                    None => {
                        let local = joined_name(&e.1, &suffix);
                        if function_in(m, &local).is_some() {
                            (next, Some((path.clone(), local)))
                        } else {
                            (next, None)
                        }
                    },
                },
            }
        },
        None => {
            proof {
                reveal_strlit("default");
            }
            if str_is(base.as_str(), "default") {
                return (next, None);
            }
            let stars = &m.export_stars;
            let ghost sv = stars.deep_view();
            let mut k: usize = 0;
            assert(sv.take(0) =~= Seq::<Seq<char>>::empty());
            while k < stars.len()
                invariant
                    k <= stars@.len(),
                    sv == stars.deep_view(),
                    next.deep_view() == star_sources(resolver.paths(), resolver.package_view(), resolver.config_view(), path@, name@, sv.take(k as int)),
                decreases stars@.len() - k,
            {
                assert(sv.take(k + 1).drop_last() =~= sv.take(k as int));
                assert(sv.take(k + 1).last() == stars@[k as int]@);
                let ghost before = next.deep_view();
                match resolver.resolve(path.as_str(), stars[k].as_str()) {
                    Some(t) => {
                        next.push((t, name.clone()));
                        assert(next.deep_view() =~= before + seq![(next@.last().0@, name@)]);
                    },
                    None => {
                        assert(before + Seq::<PairView>::empty() =~= before);
                    },
                }
                k = k + 1;
            }
            assert(sv.take(k as int) =~= sv);
            (next, None)
        },
    }
}

pub(crate) fn seen_pair(seen: &Vec<(String, String)>, p: &(String, String)) -> (b: bool)
    ensures
        b == seen.deep_view().contains(p.deep_view()),
{
    let ghost sv = seen.deep_view();
    let mut i: usize = 0;
    while i < seen.len()
        invariant
            i <= seen@.len(),
            sv == seen.deep_view(),
            forall|k: int| 0 <= k < i ==> sv[k] != p.deep_view(),
        decreases seen@.len() - i,
    {
        assert(sv[i as int] == seen@[i as int].deep_view());
        if seen[i].0 == p.0 && seen[i].1 == p.1 {
            return true;
        }
        i = i + 1;
    }
    false
}

/// The one function that `name`, exported by the file `path` of the
/// resolver's snapshot, stands for (see [`exported_of`]).
pub fn exported(resolver: &Resolver, path: String, name: String) -> (r: Option<(String, String)>)
    ensures
        r.deep_view() == exported_of(
            resolver.snapshot.modules@,
            resolver.paths(),
            resolver.package_view(),
            resolver.config_view(),
            path@,
            name@,
        ),
{
    let ghost modules = resolver.snapshot.modules@;
    let ghost paths = resolver.paths();
    let ghost pkgs = resolver.package_view();
    let ghost configs = resolver.config_view();
    let ghost start = seq![(path@, name@)];
    let mut pending: Vec<(String, String)> = Vec::new();
    pending.push((path, name));
    let mut seen: Vec<(String, String)> = Vec::new();
    let mut found: Vec<(String, String)> = Vec::new();
    let mut fuel: usize = usize::MAX;
    assert(pending.deep_view() =~= start);
    assert(seen.deep_view() =~= Seq::<PairView>::empty());
    assert(found.deep_view() =~= Seq::<PairView>::empty());
    while pending.len() > 0 && fuel > 0
        invariant
            modules == resolver.snapshot.modules@,
            paths == resolver.paths(),
            pkgs == resolver.package_view(),
            configs == resolver.config_view(),
            start == seq![(path@, name@)],
            explore(modules, paths, pkgs, configs, start, Seq::empty(), Seq::empty(), usize::MAX as nat)
                == explore(modules, paths, pkgs, configs, pending.deep_view(), seen.deep_view(), found.deep_view(), fuel as nat),
        decreases fuel,
    {
        let ghost pv = pending.deep_view();
        let p = pending.pop().unwrap();
        assert(pending.deep_view() =~= pv.drop_last());
        assert(p.deep_view() == pv.last());
        if seen_pair(&seen, &p) {
            fuel = fuel - 1;
            continue;
        }
        match module_in(&resolver.snapshot.modules, &p.0) {
            None => {
                assert(explore(modules, paths, pkgs, configs, pv, seen.deep_view(), found.deep_view(), fuel as nat) is None);
                assert(explore(modules, paths, pkgs, configs, start, Seq::empty(), Seq::empty(), usize::MAX as nat) is None);
                return None;
            },
            Some(m) => {
                let (next, cand) = export_lookup(resolver, m, &p.0, &p.1);
                let ghost rest = pending.deep_view();
                let ghost nv = next.deep_view();
                let mut k: usize = 0;
                assert(nv.take(0) =~= Seq::<PairView>::empty());
                assert(rest + nv.take(0) =~= rest);
                while k < next.len()
                    invariant
                        k <= next@.len(),
                        nv == next.deep_view(),
                        pending.deep_view() == rest + nv.take(k as int),
                    decreases next@.len() - k,
                {
                    let ghost before = pending.deep_view();
                    let item = (next[k].0.clone(), next[k].1.clone());
                    assert(item.deep_view() == next@[k as int].deep_view());
                    pending.push(item);
                    assert(pending.deep_view() =~= before.push(item.deep_view()));
                    assert(nv.take(k + 1) =~= nv.take(k as int).push(nv[k as int]));
                    assert(nv[k as int] == next@[k as int].deep_view());
                    assert(pending.deep_view() =~= rest + nv.take(k + 1));
                    k = k + 1;
                }
                assert(nv.take(k as int) =~= nv);
                let ghost sv = seen.deep_view();
                seen.push(p);
                assert(seen.deep_view() =~= sv.push(pv.last()));
                match cand {
                    Some(c) => add_pair_entry(&mut found, c.0, c.1),
                    None => {},
                }
                fuel = fuel - 1;
            },
        }
    }
    if found.len() == 1 {
        assert(found.deep_view()[0] == found@[0].deep_view());
        Some((found[0].0.clone(), found[0].1.clone()))
    } else {
        None
    }
}

fn ancestor_shadows(m: &Module, caller: &String, base: &String) -> (b: bool)
    ensures
        b == ancestors_shadow(*m, caller@, base@),
{
    let mut scope = caller.clone();
    loop
        invariant
            ancestors_shadow(*m, caller@, base@) == ancestors_shadow(*m, scope@, base@),
        decreases scope@.len(),
    {
        let cs = chars_of(scope.as_str());
        match last_dot(&cs) {
            Some(i) => {
                let parent = string_of(&cs, 0, i);
                assert(cs@.subrange(0, i as int) =~= cs@.take(i as int));
                if shadowed(m, &parent, base) {
                    return true;
                }
                scope = parent;
            },
            None => return false,
        }
    }
}

/// The function that a call of `target` from `caller` (with record `f`)
/// in module `m` at `path` reaches (see [`call_target`]).
pub fn target_of_call(resolver: &Resolver, path: &String, m: &Module, caller: &String, f: &ParsedFunction, target: &String) -> (r: Option<(String, String)>)
    ensures
        r.deep_view() == call_target(
            resolver.snapshot.modules@,
            resolver.paths(),
            resolver.package_view(),
            resolver.config_view(),
            path@,
            *m,
            caller@,
            f.deep_view(),
            target@,
        ),
{
    let (base, _) = split_name(target.as_str());
    if binds(&f.shadows, &base) {
        return None;
    }
    match lexical_target(m, caller, target, &base) {
        Some(n) => return Some((path.clone(), n)),
        None => {},
    }
    if ancestor_shadows(m, caller, &base) {
        return None;
    }
    let i = match get_entry(&m.imports, &base) {
        Some(i) => i,
        None => return None,
    };
    let tc = chars_of(target.as_str());
    let bc = chars_of(base.as_str());
    proof {
        let t = target@;
        match first_index(t, '.', 0) {
            Some(k) => {
                lemma_first_index_bound(t, '.', 0);
            },
            None => {},
        }
    }
    let suffix = string_of(&tc, bc.len(), tc.len());
    assert(suffix@ =~= target@.skip(base@.len() as int));
    proof {
        reveal_strlit("*");
    }
    let name = if str_is(i.1.as_str(), "*") {
        let sc = chars_of(suffix.as_str());
        if sc.len() > 0 && sc[0] == '.' {
            assert(sc@.subrange(1, sc@.len() as int) =~= suffix@.skip(1));
            string_of(&sc, 1, sc.len())
        } else {
            return None;
        }
    } else {
        joined_name(&i.1, &suffix)
    };
    match resolver.resolve(path.as_str(), i.0.as_str()) {
        None => None,
        Some(t) => exported(resolver, t, name),
    }
}

proof fn lemma_first_index_bound(s: Seq<char>, c: char, from: int)
    requires
        0 <= from,
    ensures
        first_index(s, c, from) matches Some(i) ==> from <= i < s.len(),
    decreases s.len() - from,
{
    if from < s.len() && s[from] != c {
        lemma_first_index_bound(s, c, from + 1);
    }
}

/// The calls of callable `caller` (record `f`) to `targets`, added to `acc`.
pub open spec fn function_calls(
    modules: Seq<(String, Module)>,
    paths: Seq<Seq<char>>,
    pkgs: Seq<(Seq<char>, JsonValue)>,
    configs: Seq<(Seq<char>, ConfigView)>,
    path: Seq<char>,
    m: Module,
    caller: Seq<char>,
    f: FunctionView,
    targets: Seq<Seq<char>>,
    acc: Seq<(PairView, PairView)>,
) -> Seq<(PairView, PairView)>
    decreases targets.len(),
{
    if targets.len() == 0 {
        acc
    } else {
        let a = function_calls(modules, paths, pkgs, configs, path, m, caller, f, targets.drop_last(), acc);
        match call_target(modules, paths, pkgs, configs, path, m, caller, f, targets.last()) {
            Some(to) => add_call(a, ((path, caller), to)),
            None => a,
        }
    }
}

/// The calls of the callables `fs` of module `m` at `path`, added to `acc`.
pub open spec fn module_calls(
    modules: Seq<(String, Module)>,
    paths: Seq<Seq<char>>,
    pkgs: Seq<(Seq<char>, JsonValue)>,
    configs: Seq<(Seq<char>, ConfigView)>,
    path: Seq<char>,
    m: Module,
    fs: Seq<(Seq<char>, FunctionView)>,
    acc: Seq<(PairView, PairView)>,
) -> Seq<(PairView, PairView)>
    decreases fs.len(),
{
    if fs.len() == 0 {
        acc
    } else {
        let a = module_calls(modules, paths, pkgs, configs, path, m, fs.drop_last(), acc);
        function_calls(modules, paths, pkgs, configs, path, m, fs.last().0, fs.last().1, fs.last().1.3, a)
    }
}

/// The calls between functions of the modules `ms`, each once, sorted.
pub open spec fn all_calls(
    modules: Seq<(String, Module)>,
    paths: Seq<Seq<char>>,
    pkgs: Seq<(Seq<char>, JsonValue)>,
    configs: Seq<(Seq<char>, ConfigView)>,
    ms: Seq<(String, Module)>,
) -> Seq<(PairView, PairView)>
    decreases ms.len(),
{
    if ms.len() == 0 {
        Seq::empty()
    } else {
        let a = all_calls(modules, paths, pkgs, configs, ms.drop_last());
        module_calls(modules, paths, pkgs, configs, ms.last().0@, ms.last().1, ms.last().1.functions.deep_view(), a)
    }
}

/// The calls between the functions of the resolver's snapshot (see
/// [`all_calls`]).
pub fn call_edges(resolver: &Resolver) -> (r: Vec<((String, String), (String, String))>)
    ensures
        r.deep_view() == all_calls(
            resolver.snapshot.modules@,
            resolver.paths(),
            resolver.package_view(),
            resolver.config_view(),
            resolver.snapshot.modules@,
        ),
{
    let modules = &resolver.snapshot.modules;
    let ghost ms = modules@;
    let ghost paths = resolver.paths();
    let ghost pkgs = resolver.package_view();
    let ghost configs = resolver.config_view();
    let mut result: Vec<((String, String), (String, String))> = Vec::new();
    let mut k: usize = 0;
    assert(ms.take(0) =~= Seq::<(String, Module)>::empty());
    assert(result.deep_view() =~= Seq::<(PairView, PairView)>::empty());
    while k < modules.len()
        invariant
            k <= ms.len(),
            ms == modules@,
            modules == &resolver.snapshot.modules,
            paths == resolver.paths(),
            pkgs == resolver.package_view(),
            configs == resolver.config_view(),
            result.deep_view() == all_calls(ms, paths, pkgs, configs, ms.take(k as int)),
        decreases ms.len() - k,
    {
        assert(ms.take(k + 1).drop_last() =~= ms.take(k as int));
        assert(ms.take(k + 1).last() == ms[k as int]);
        let path = &modules[k].0;
        let m = &modules[k].1;
        let fs = &m.functions;
        let ghost fv = fs.deep_view();
        let ghost start = result.deep_view();
        let mut j: usize = 0;
        assert(fv.take(0) =~= Seq::<(Seq<char>, FunctionView)>::empty());
        while j < fs.len()
            invariant
                j <= fs@.len(),
                fv == fs.deep_view(),
                ms == modules@,
                modules == &resolver.snapshot.modules,
                paths == resolver.paths(),
                pkgs == resolver.package_view(),
                configs == resolver.config_view(),
                result.deep_view() == module_calls(ms, paths, pkgs, configs, path@, *m, fv.take(j as int), start),
            decreases fs@.len() - j,
        {
            assert(fv.take(j + 1).drop_last() =~= fv.take(j as int));
            assert(fv.take(j + 1).last() == fs@[j as int].deep_view());
            let caller = &fs[j].0;
            let f = &fs[j].1;
            let targets = &f.calls;
            let ghost tv = targets.deep_view();
            let ghost mid = result.deep_view();
            let mut t: usize = 0;
            assert(tv.take(0) =~= Seq::<Seq<char>>::empty());
            while t < targets.len()
                invariant
                    t <= targets@.len(),
                    tv == targets.deep_view(),
                    tv == f.deep_view().3,
                    ms == modules@,
                    modules == &resolver.snapshot.modules,
                    paths == resolver.paths(),
                    pkgs == resolver.package_view(),
                    configs == resolver.config_view(),
                    result.deep_view() == function_calls(ms, paths, pkgs, configs, path@, *m, caller@, f.deep_view(), tv.take(t as int), mid),
                decreases targets@.len() - t,
            {
                assert(tv.take(t + 1).drop_last() =~= tv.take(t as int));
                assert(tv.take(t + 1).last() == targets@[t as int]@);
                match target_of_call(resolver, path, m, caller, f, &targets[t]) {
                    Some(to) => add_call_entry(&mut result, ((path.clone(), caller.clone()), to)),
                    None => {},
                }
                t = t + 1;
            }
            assert(tv.take(t as int) =~= tv);
            j = j + 1;
        }
        assert(fv.take(j as int) =~= fv);
        k = k + 1;
    }
    assert(ms.take(k as int) =~= ms);
    result
}

} // verus!
