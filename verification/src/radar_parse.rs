//! What the radar reads from one TypeScript or JavaScript file: the modules
//! it imports, its named callables with the calls they make, and the names
//! it imports and exports. Import edges between files say nothing of calls.
use vstd::prelude::*;
use vstd::string::StringExecFns;
use vstd::string::StringSliceAdditionalSpecFns;
use vstd::utf8::encode_utf8;
use crate::keyed::{add_key, add_name, get_entry, lookup, put, put_entry};
use crate::model::append_bytes;
use crate::radar::starts_with_text;
use crate::paths::{chars_are, extension, extension_of};
use crate::semantic::{digest_bytes, error_count, hex, nodes_view, sha256_of};
use crate::syntax::{
    child_by_field, children_of, field_child, kids, kind_is, node_text, parse_syntax, parsed_from, text_of, Grammar,
    SyntaxNode,
};
use crate::text::{chars_of, push_char, string_of};

verus! {

/// An optional node index as an integer.
pub open spec fn index_of(o: Option<usize>) -> Option<int> {
    match o {
        Some(i) => Some(i as int),
        None => None,
    }
}

/// Node `i` has kind `kind`.
pub open spec fn is_kind(nodes: Seq<SyntaxNode>, i: int, kind: Seq<char>) -> bool {
    nodes[i].kind@ == kind
}

/// Node `i` has no children at all.
pub open spec fn is_leaf(nodes: Seq<SyntaxNode>, i: int) -> bool {
    i + 1 >= nodes.len() || nodes[i + 1].depth <= nodes[i].depth
}

/// What a leaf adds to a fingerprint: its kind, a zero byte, its text and a
/// zero byte.
pub open spec fn leaf_bytes(nodes: Seq<SyntaxNode>, bytes: Seq<u8>, i: int) -> Seq<u8> {
    encode_utf8(nodes[i].kind@) + seq![0u8] + encode_utf8(text_of(nodes, bytes, i)) + seq![0u8]
}

/// The leaves of node `i` in order, comments and the subtree of `skip`
/// left out, as fingerprint input.
pub open spec fn printed(nodes: Seq<SyntaxNode>, bytes: Seq<u8>, i: int, skip: Option<int>) -> Seq<u8>
    decreases nodes.len() - i, 1int, 0int,
{
    if i < 0 || i >= nodes.len() {
        Seq::empty()
    } else if is_kind(nodes, i, "comment"@) || skip == Some(i) {
        Seq::empty()
    } else if is_leaf(nodes, i) {
        leaf_bytes(nodes, bytes, i)
    } else {
        printed_kids(nodes, bytes, i, kids(nodes, i, false), skip)
    }
}

/// The fingerprint input of the children `ks` of node `lo`, in order.
pub open spec fn printed_kids(nodes: Seq<SyntaxNode>, bytes: Seq<u8>, lo: int, ks: Seq<int>, skip: Option<int>) -> Seq<u8>
    decreases nodes.len() - lo, 0int, ks.len(),
{
    if ks.len() == 0 {
        Seq::empty()
    } else {
        let before = printed_kids(nodes, bytes, lo, ks.drop_last(), skip);
        let k = ks.last();
        if lo < k < nodes.len() {
            before + printed(nodes, bytes, k, skip)
        } else {
            before
        }
    }
}

/// The fingerprint of node `i`: the SHA-256 digest of its leaves, in
/// lowercase hexadecimal. Comments and formatting do not change it.
pub open spec fn fingerprint_of(nodes: Seq<SyntaxNode>, bytes: Seq<u8>, i: int, skip: Option<int>) -> Seq<char> {
    hex(sha256_of(printed(nodes, bytes, i, skip)))
}

fn print_node(nodes: &Vec<SyntaxNode>, source: &str, i: usize, skip: Option<usize>, out: &mut Vec<u8>)
    requires
        i < nodes@.len(),
    ensures
        final(out)@ == old(out)@ + printed(nodes@, source.spec_bytes(), i as int, index_of(skip)),
    decreases nodes@.len() - i,
{
    let ghost bytes = source.spec_bytes();
    let skipped = match skip {
        Some(s) => s == i,
        None => false,
    };
    if kind_is(nodes, i, "comment") || skipped {
        assert(old(out)@ + Seq::<u8>::empty() =~= old(out)@);
        return;
    }
    let n = nodes.len();
    if i + 1 >= n || nodes[i + 1].depth <= nodes[i].depth {
        append_bytes(out, nodes[i].kind.as_str().as_bytes());
        out.push(0u8);
        append_bytes(out, node_text(nodes, i, source).as_bytes());
        out.push(0u8);
        assert(final(out)@ =~= old(out)@ + leaf_bytes(nodes@, bytes, i as int));
        return;
    }
    let ks = children_of(nodes, i, false);
    let ghost kv = ks@.map_values(|j: usize| j as int);
    let mut k: usize = 0;
    assert(kv.take(0) =~= Seq::<int>::empty());
    while k < ks.len()
        invariant
            k <= ks@.len(),
            bytes == source.spec_bytes(),
            kv == kids(nodes@, i as int, false),
            kv == ks@.map_values(|j: usize| j as int),
            forall|m: int| 0 <= m < ks@.len() ==> i < #[trigger] ks@[m] < nodes@.len(),
            out@ == old(out)@ + printed_kids(nodes@, bytes, i as int, kv.take(k as int), index_of(skip)),
        decreases ks@.len() - k,
    {
        let c = ks[k];
        assert(kv[k as int] == c as int);
        assert(kv.take(k + 1).drop_last() =~= kv.take(k as int));
        assert(kv.take(k + 1).last() == c as int);
        let ghost before = out@;
        print_node(nodes, source, c, skip, out);
        proof {
            let t = kv.take(k + 1);
            assert(i < c < nodes@.len());
            assert(printed_kids(nodes@, bytes, i as int, t, index_of(skip)) == printed_kids(
                nodes@,
                bytes,
                i as int,
                t.drop_last(),
                index_of(skip),
            ) + printed(nodes@, bytes, c as int, index_of(skip)));
            assert(t.drop_last() == kv.take(k as int));
            assert(out@ =~= old(out)@ + printed_kids(nodes@, bytes, i as int, t, index_of(skip)));
        }
        k = k + 1;
    }
    assert(kv.take(k as int) =~= kv);
}

/// The fingerprint of node `i`.
fn fingerprint(nodes: &Vec<SyntaxNode>, source: &str, i: usize, skip: Option<usize>) -> (r: String)
    requires
        i < nodes@.len(),
    ensures
        r@ == fingerprint_of(nodes@, source.spec_bytes(), i as int, index_of(skip)),
{
    let mut data: Vec<u8> = Vec::new();
    print_node(nodes, source, i, skip, &mut data);
    assert(data@ =~= printed(nodes@, source.spec_bytes(), i as int, index_of(skip)));
    digest_bytes(data.as_slice())
}

/// A quote character that module specifiers are written in.
pub open spec fn is_quote(c: char) -> bool {
    c == '\'' || c == '"'
}

pub open spec fn trim_front(s: Seq<char>) -> Seq<char>
    decreases s.len(),
{
    if s.len() > 0 && is_quote(s[0]) {
        trim_front(s.drop_first())
    } else {
        s
    }
}

pub open spec fn trim_back(s: Seq<char>) -> Seq<char>
    decreases s.len(),
{
    if s.len() > 0 && is_quote(s.last()) {
        trim_back(s.drop_last())
    } else {
        s
    }
}

/// A module specifier with the quotes at both ends taken off
/// (`str::trim_matches` on both quote characters).
pub open spec fn unquoted(s: Seq<char>) -> Seq<char> {
    trim_back(trim_front(s))
}

fn unquote(t: &str) -> (r: String)
    ensures
        r@ == unquoted(t@),
{
    let cs = chars_of(t);
    let ghost s = cs@;
    let mut a: usize = 0;
    assert(s.skip(0) =~= s);
    while a < cs.len() && (cs[a] == '\'' || cs[a] == '"')
        invariant
            a <= s.len(),
            cs@ == s,
            trim_front(s) == trim_front(s.skip(a as int)),
        decreases s.len() - a,
    {
        assert(s.skip(a as int)[0] == s[a as int]);
        assert(s.skip(a as int).drop_first() =~= s.skip(a + 1));
        a = a + 1;
    }
    let ghost f = s.skip(a as int);
    if a < cs.len() {
        assert(f[0] == s[a as int]);
    }
    assert(trim_front(s) == f);
    let mut b: usize = cs.len();
    assert(s.subrange(a as int, b as int) =~= f);
    while b > a && (cs[b - 1] == '\'' || cs[b - 1] == '"')
        invariant
            a <= b <= s.len(),
            cs@ == s,
            trim_back(f) == trim_back(s.subrange(a as int, b as int)),
        decreases b - a,
    {
        assert(s.subrange(a as int, b as int).last() == s[b - 1]);
        assert(s.subrange(a as int, b as int).drop_last() =~= s.subrange(a as int, b - 1));
        b = b - 1;
    }
    if b > a {
        assert(s.subrange(a as int, b as int).last() == s[b - 1]);
    }
    string_of(&cs, a, b)
}

/// `name` inside `scope`: the two joined by a dot, or `name` alone at the
/// top level.
pub open spec fn qualify(scope: Seq<char>, name: Seq<char>) -> Seq<char> {
    if scope.len() == 0 {
        name
    } else {
        scope + seq!['.'] + name
    }
}

fn qualified(scope: &String, name: &str) -> (r: String)
    ensures
        r@ == qualify(scope@, name@),
{
    if scope.as_str().is_empty() {
        name.to_owned()
    } else {
        let mut r = scope.clone();
        push_char(&mut r, '.');
        r.append(name);
        r
    }
}

fn text_starts(t: &str, prefix: &str) -> (b: bool)
    ensures
        b == prefix@.is_prefix_of(t@),
{
    starts_with_text(&chars_of(t), prefix)
}

/// The child of node `i` in field `a`, or else in field `b`.
pub open spec fn field_of(nodes: Seq<SyntaxNode>, i: int, a: Seq<char>, b: Seq<char>) -> Option<int> {
    match field_child(nodes, i, a) {
        Some(c) => Some(c),
        None => field_child(nodes, i, b),
    }
}

fn child_in(nodes: &Vec<SyntaxNode>, i: usize, a: &str, b: &str) -> (r: Option<usize>)
    requires
        i < nodes@.len(),
    ensures
        index_of(r) == field_of(nodes@, i as int, a@, b@),
        r matches Some(c) ==> i < c < nodes@.len(),
{
    match child_by_field(nodes, i, a) {
        Some(c) => Some(c),
        None => child_by_field(nodes, i, b),
    }
}

/// A function, method or arrow function: a node that owns a body.
pub open spec fn callable(nodes: Seq<SyntaxNode>, i: int) -> bool {
    ||| is_kind(nodes, i, "function_declaration"@)
    ||| is_kind(nodes, i, "generator_function_declaration"@)
    ||| is_kind(nodes, i, "function_expression"@)
    ||| is_kind(nodes, i, "generator_function"@)
    ||| is_kind(nodes, i, "arrow_function"@)
    ||| is_kind(nodes, i, "method_definition"@)
}

fn is_callable(nodes: &Vec<SyntaxNode>, i: usize) -> (b: bool)
    requires
        i < nodes@.len(),
    ensures
        b == callable(nodes@, i as int),
{
    kind_is(nodes, i, "function_declaration") || kind_is(nodes, i, "generator_function_declaration")
        || kind_is(nodes, i, "function_expression") || kind_is(nodes, i, "generator_function")
        || kind_is(nodes, i, "arrow_function") || kind_is(nodes, i, "method_definition")
}

/// The names a binding pattern or parameter list introduces, added to
/// `names`.
pub open spec fn bound(nodes: Seq<SyntaxNode>, bytes: Seq<u8>, n: int, names: Seq<Seq<char>>) -> Seq<Seq<char>>
    decreases nodes.len() - n, 1int, 0int,
{
    if n < 0 || n >= nodes.len() {
        names
    } else if is_kind(nodes, n, "identifier"@) || is_kind(nodes, n, "shorthand_property_identifier_pattern"@) {
        add_key(names, text_of(nodes, bytes, n))
    } else if is_kind(nodes, n, "pair_pattern"@) {
        match field_child(nodes, n, "value"@) {
            Some(x) => if n < x < nodes.len() {
                bound(nodes, bytes, x, names)
            } else {
                names
            },
            None => names,
        }
    } else if is_kind(nodes, n, "required_parameter"@) || is_kind(nodes, n, "optional_parameter"@)
        || is_kind(nodes, n, "assignment_pattern"@) {
        match field_of(nodes, n, "pattern"@, "left"@) {
            Some(x) => if n < x < nodes.len() {
                bound(nodes, bytes, x, names)
            } else {
                names
            },
            None => names,
        }
    } else if is_kind(nodes, n, "object_pattern"@) || is_kind(nodes, n, "array_pattern"@)
        || is_kind(nodes, n, "formal_parameters"@) || is_kind(nodes, n, "rest_pattern"@) {
        bound_kids(nodes, bytes, n, kids(nodes, n, true), names)
    } else {
        names
    }
}

pub open spec fn bound_kids(nodes: Seq<SyntaxNode>, bytes: Seq<u8>, lo: int, ks: Seq<int>, names: Seq<Seq<char>>) -> Seq<Seq<char>>
    decreases nodes.len() - lo, 0int, ks.len(),
{
    if ks.len() == 0 {
        names
    } else {
        let before = bound_kids(nodes, bytes, lo, ks.drop_last(), names);
        let k = ks.last();
        if lo < k < nodes.len() {
            bound(nodes, bytes, k, before)
        } else {
            before
        }
    }
}

fn bind(nodes: &Vec<SyntaxNode>, source: &str, n: usize, names: &mut Vec<String>)
    requires
        n < nodes@.len(),
    ensures
        final(names).deep_view() == bound(nodes@, source.spec_bytes(), n as int, old(names).deep_view()),
    decreases nodes@.len() - n,
{
    let ghost bytes = source.spec_bytes();
    if kind_is(nodes, n, "identifier") || kind_is(nodes, n, "shorthand_property_identifier_pattern") {
        add_name(names, node_text(nodes, n, source).to_owned());
    } else if kind_is(nodes, n, "pair_pattern") {
        match child_by_field(nodes, n, "value") {
            Some(x) => bind(nodes, source, x, names),
            None => {},
        }
    } else if kind_is(nodes, n, "required_parameter") || kind_is(nodes, n, "optional_parameter")
        || kind_is(nodes, n, "assignment_pattern") {
        match child_in(nodes, n, "pattern", "left") {
            Some(x) => bind(nodes, source, x, names),
            None => {},
        }
    } else if kind_is(nodes, n, "object_pattern") || kind_is(nodes, n, "array_pattern")
        || kind_is(nodes, n, "formal_parameters") || kind_is(nodes, n, "rest_pattern") {
        let ks = children_of(nodes, n, true);
        let ghost kv = ks@.map_values(|j: usize| j as int);
        let ghost start = names.deep_view();
        let mut k: usize = 0;
        assert(kv.take(0) =~= Seq::<int>::empty());
        while k < ks.len()
            invariant
                k <= ks@.len(),
                bytes == source.spec_bytes(),
                kv == kids(nodes@, n as int, true),
                kv == ks@.map_values(|j: usize| j as int),
                forall|m: int| 0 <= m < ks@.len() ==> n < #[trigger] ks@[m] < nodes@.len(),
                names.deep_view() == bound_kids(nodes@, bytes, n as int, kv.take(k as int), start),
            decreases ks@.len() - k,
        {
            let c = ks[k];
            assert(kv[k as int] == c as int);
            assert(kv.take(k + 1).drop_last() =~= kv.take(k as int));
            bind(nodes, source, c, names);
            k = k + 1;
        }
        assert(kv.take(k as int) =~= kv);
    }
}

/// The name a call goes to: an identifier, `this`, a property, or a chain
/// of these joined by dots. Computed or returned callables have none.
pub open spec fn target_name(nodes: Seq<SyntaxNode>, bytes: Seq<u8>, t: int) -> Option<Seq<char>>
    decreases nodes.len() - t,
{
    if t < 0 || t >= nodes.len() {
        None
    } else if is_kind(nodes, t, "identifier"@) || is_kind(nodes, t, "this"@) || is_kind(nodes, t, "property_identifier"@) {
        Some(text_of(nodes, bytes, t))
    } else if is_kind(nodes, t, "member_expression"@) {
        match (field_child(nodes, t, "object"@), field_child(nodes, t, "property"@)) {
            (Some(o), Some(p)) => if t < o < nodes.len() && t < p < nodes.len() {
                match (target_name(nodes, bytes, o), target_name(nodes, bytes, p)) {
                    (Some(a), Some(b)) => Some(a + seq!['.'] + b),
                    _ => None,
                }
            } else {
                None
            },
            _ => None,
        }
    } else {
        None
    }
}

fn call_target(nodes: &Vec<SyntaxNode>, source: &str, t: usize) -> (r: Option<String>)
    requires
        t < nodes@.len(),
    ensures
        match r {
            Some(s) => target_name(nodes@, source.spec_bytes(), t as int) == Some(s@),
            None => target_name(nodes@, source.spec_bytes(), t as int) is None,
        },
    decreases nodes@.len() - t,
{
    if kind_is(nodes, t, "identifier") || kind_is(nodes, t, "this") || kind_is(nodes, t, "property_identifier") {
        return Some(node_text(nodes, t, source).to_owned());
    }
    if !kind_is(nodes, t, "member_expression") {
        return None;
    }
    let o = match child_by_field(nodes, t, "object") {
        Some(o) => o,
        None => return None,
    };
    let p = match child_by_field(nodes, t, "property") {
        Some(p) => p,
        None => return None,
    };
    let a = match call_target(nodes, source, o) {
        Some(a) => a,
        None => return None,
    };
    let b = match call_target(nodes, source, p) {
        Some(b) => b,
        None => return None,
    };
    let mut r = a;
    push_char(&mut r, '.');
    r.append(b.as_str());
    Some(r)
}

/// A node that names a local binding: a variable, a caught error or a class.
pub open spec fn declares(nodes: Seq<SyntaxNode>, v: int) -> bool {
    is_kind(nodes, v, "variable_declarator"@) || is_kind(nodes, v, "catch_clause"@) || is_kind(nodes, v, "class_declaration"@)
}

/// Node `v` holds a callable in its `value` field.
pub open spec fn holds_callable(nodes: Seq<SyntaxNode>, v: int) -> bool {
    match field_child(nodes, v, "value"@) {
        Some(x) => callable(nodes, x),
        None => false,
    }
}

/// What node `v` itself adds to the calls and shadowed names of a body.
pub open spec fn visit_one(nodes: Seq<SyntaxNode>, bytes: Seq<u8>, v: int, acc: (Seq<Seq<char>>, Seq<Seq<char>>)) -> (Seq<Seq<char>>, Seq<Seq<char>>) {
    let acc1 = if declares(nodes, v) && !holds_callable(nodes, v) {
        match field_of(nodes, v, "name"@, "parameter"@) {
            Some(n) => (acc.0, bound(nodes, bytes, n, acc.1)),
            None => acc,
        }
    } else {
        acc
    };
    if is_kind(nodes, v, "call_expression"@) {
        match field_child(nodes, v, "function"@) {
            Some(t) => match target_name(nodes, bytes, t) {
                Some(name) => (add_key(acc1.0, name), acc1.1),
                None => acc1,
            },
            None => acc1,
        }
    } else {
        acc1
    }
}

/// The calls and shadowed names of the part of a body under node `v`,
/// nested callables left out.
pub open spec fn visited(nodes: Seq<SyntaxNode>, bytes: Seq<u8>, v: int, acc: (Seq<Seq<char>>, Seq<Seq<char>>)) -> (Seq<Seq<char>>, Seq<Seq<char>>)
    decreases nodes.len() - v, 1int, 0int,
{
    if v < 0 || v >= nodes.len() || callable(nodes, v) {
        acc
    } else {
        visited_kids(nodes, bytes, v, kids(nodes, v, true), visit_one(nodes, bytes, v, acc))
    }
}

pub open spec fn visited_kids(nodes: Seq<SyntaxNode>, bytes: Seq<u8>, lo: int, ks: Seq<int>, acc: (Seq<Seq<char>>, Seq<Seq<char>>)) -> (Seq<Seq<char>>, Seq<Seq<char>>)
    decreases nodes.len() - lo, 0int, ks.len(),
{
    if ks.len() == 0 {
        acc
    } else {
        let before = visited_kids(nodes, bytes, lo, ks.drop_last(), acc);
        let k = ks.last();
        if lo < k < nodes.len() {
            visited(nodes, bytes, k, before)
        } else {
            before
        }
    }
}

/// The names a callable's body calls, and the names it binds that shadow
/// outer ones (its parameters and local declarations), each sorted.
pub open spec fn call_info(nodes: Seq<SyntaxNode>, bytes: Seq<u8>, fun: int, body: int) -> (Seq<Seq<char>>, Seq<Seq<char>>) {
    let shadows = match field_of(nodes, fun, "parameters"@, "parameter"@) {
        Some(p) => bound(nodes, bytes, p, Seq::empty()),
        None => Seq::empty(),
    };
    visited(nodes, bytes, body, (Seq::empty(), shadows))
}

fn visit(nodes: &Vec<SyntaxNode>, source: &str, v: usize, calls: &mut Vec<String>, shadows: &mut Vec<String>)
    requires
        v < nodes@.len(),
    ensures
        (final(calls).deep_view(), final(shadows).deep_view()) == visited(
            nodes@,
            source.spec_bytes(),
            v as int,
            (old(calls).deep_view(), old(shadows).deep_view()),
        ),
    decreases nodes@.len() - v,
{
    let ghost bytes = source.spec_bytes();
    if is_callable(nodes, v) {
        return;
    }
    let ghost acc = (calls.deep_view(), shadows.deep_view());
    let holds = match child_by_field(nodes, v, "value") {
        Some(x) => is_callable(nodes, x),
        None => false,
    };
    if (kind_is(nodes, v, "variable_declarator") || kind_is(nodes, v, "catch_clause") || kind_is(nodes, v, "class_declaration"))
        && !holds {
        match child_in(nodes, v, "name", "parameter") {
            Some(n) => bind(nodes, source, n, shadows),
            None => {},
        }
    }
    if kind_is(nodes, v, "call_expression") {
        match child_by_field(nodes, v, "function") {
            Some(t) => match call_target(nodes, source, t) {
                Some(name) => add_name(calls, name),
                None => {},
            },
            None => {},
        }
    }
    assert((calls.deep_view(), shadows.deep_view()) == visit_one(nodes@, bytes, v as int, acc));
    let ks = children_of(nodes, v, true);
    let ghost kv = ks@.map_values(|j: usize| j as int);
    let ghost start = (calls.deep_view(), shadows.deep_view());
    let mut k: usize = 0;
    assert(kv.take(0) =~= Seq::<int>::empty());
    while k < ks.len()
        invariant
            k <= ks@.len(),
            bytes == source.spec_bytes(),
            kv == kids(nodes@, v as int, true),
            kv == ks@.map_values(|j: usize| j as int),
            forall|m: int| 0 <= m < ks@.len() ==> v < #[trigger] ks@[m] < nodes@.len(),
            (calls.deep_view(), shadows.deep_view()) == visited_kids(nodes@, bytes, v as int, kv.take(k as int), start),
        decreases ks@.len() - k,
    {
        let c = ks[k];
        assert(kv[k as int] == c as int);
        assert(kv.take(k + 1).drop_last() =~= kv.take(k as int));
        visit(nodes, source, c, calls, shadows);
        k = k + 1;
    }
    assert(kv.take(k as int) =~= kv);
}

/// The calls and shadowed names of callable `fun` with body `body`.
fn calls_of(nodes: &Vec<SyntaxNode>, source: &str, fun: usize, body: usize) -> (r: (Vec<String>, Vec<String>))
    requires
        fun < nodes@.len(),
        body < nodes@.len(),
    ensures
        (r.0.deep_view(), r.1.deep_view()) == call_info(nodes@, source.spec_bytes(), fun as int, body as int),
{
    let mut calls: Vec<String> = Vec::new();
    let mut shadows: Vec<String> = Vec::new();
    match child_in(nodes, fun, "parameters", "parameter") {
        Some(p) => bind(nodes, source, p, &mut shadows),
        None => {},
    }
    assert(calls.deep_view() =~= Seq::<Seq<char>>::empty());
    assert(shadows.deep_view() =~= Seq::<Seq<char>>::empty() || field_of(nodes@, fun as int, "parameters"@, "parameter"@) is Some);
    visit(nodes, source, body, &mut calls, &mut shadows);
    (calls, shadows)
}

/// A named callable of a file: the line it starts on, fingerprints of its
/// signature and of its body, the names it calls and the names it binds
/// itself.
#[derive(Clone, Debug)]
pub struct ParsedFunction {
    pub line: usize,
    pub signature: String,
    pub body: String,
    pub calls: Vec<String>,
    pub shadows: Vec<String>,
}

/// A callable as plain values: line, signature, body, calls, shadows.
pub type FunctionView = (usize, Seq<char>, Seq<char>, Seq<Seq<char>>, Seq<Seq<char>>);

impl DeepView for ParsedFunction {
    type V = FunctionView;

    open spec fn deep_view(&self) -> FunctionView {
        (self.line, self.signature@, self.body@, self.calls.deep_view(), self.shadows.deep_view())
    }
}

/// What a walk over the tree has gathered so far: the callables by
/// qualified name, the imported module specifiers, the count of imports
/// that cannot be resolved statically, and the overload signatures by name.
pub type ScanView = (Seq<(Seq<char>, FunctionView)>, Seq<Seq<char>>, usize, Seq<(Seq<char>, Seq<char>)>);

/// One more, stopping at the largest `usize`.
pub open spec fn bump(n: usize) -> usize {
    if n < usize::MAX {
        (n + 1) as usize
    } else {
        n
    }
}

/// The module an import or export statement names in its `source` field.
pub open spec fn source_dependency(nodes: Seq<SyntaxNode>, bytes: Seq<u8>, i: int) -> Option<Seq<char>> {
    if is_kind(nodes, i, "import_statement"@) || is_kind(nodes, i, "export_statement"@) {
        match field_child(nodes, i, "source"@) {
            Some(p) => Some(unquoted(text_of(nodes, bytes, p))),
            None => None,
        }
    } else {
        None
    }
}

/// A dynamic `import(..)` call.
pub open spec fn import_call(nodes: Seq<SyntaxNode>, i: int) -> bool {
    is_kind(nodes, i, "call_expression"@) && match field_child(nodes, i, "function"@) {
        Some(f) => is_kind(nodes, f, "import"@),
        None => false,
    }
}

/// The first named argument of a call.
pub open spec fn first_argument(nodes: Seq<SyntaxNode>, i: int) -> Option<int> {
    match field_child(nodes, i, "arguments"@) {
        Some(a) => if kids(nodes, a, true).len() > 0 {
            Some(kids(nodes, a, true)[0])
        } else {
            None
        },
        None => None,
    }
}

/// A `require(..)` call or an `import x = require(..)` clause: an import
/// that needs scope-aware resolution.
pub open spec fn require_like(nodes: Seq<SyntaxNode>, bytes: Seq<u8>, i: int) -> bool {
    is_kind(nodes, i, "import_require_clause"@) || (is_kind(nodes, i, "call_expression"@) && match field_child(nodes, i, "function"@) {
        Some(f) => text_of(nodes, bytes, f) == "require"@,
        None => false,
    })
}

/// The imports node `i` itself adds: the module of an import or export
/// statement, the literal module of a dynamic import (or one more
/// unresolved import when it is not a literal), and one more unresolved
/// import for a `require`.
pub open spec fn with_imports(nodes: Seq<SyntaxNode>, bytes: Seq<u8>, i: int, st: ScanView) -> ScanView {
    let deps = match source_dependency(nodes, bytes, i) {
        Some(d) => add_key(st.1, d),
        None => st.1,
    };
    let (deps2, unresolved) = if import_call(nodes, i) {
        match first_argument(nodes, i) {
            Some(a) => if is_kind(nodes, a, "string"@) {
                (add_key(deps, unquoted(text_of(nodes, bytes, a))), st.2)
            } else {
                (deps, bump(st.2))
            },
            None => (deps, bump(st.2)),
        }
    } else {
        (deps, st.2)
    };
    let unresolved2 = if require_like(nodes, bytes, i) {
        bump(unresolved)
    } else {
        unresolved
    };
    (st.0, deps2, unresolved2, st.3)
}

fn note_imports(
    nodes: &Vec<SyntaxNode>,
    source: &str,
    i: usize,
    deps: &mut Vec<String>,
    unresolved: &mut usize,
)
    requires
        i < nodes@.len(),
    ensures
        ({
            let st = with_imports(nodes@, source.spec_bytes(), i as int, (Seq::empty(), old(deps).deep_view(), *old(unresolved), Seq::empty()));
            final(deps).deep_view() == st.1 && *final(unresolved) == st.2
        }),
{
    if kind_is(nodes, i, "import_statement") || kind_is(nodes, i, "export_statement") {
        match child_by_field(nodes, i, "source") {
            Some(p) => add_name(deps, unquote(node_text(nodes, p, source))),
            None => {},
        }
    }
    if kind_is(nodes, i, "call_expression") {
        let dynamic = match child_by_field(nodes, i, "function") {
            Some(f) => kind_is(nodes, f, "import"),
            None => false,
        };
        if dynamic {
            let arg = match child_by_field(nodes, i, "arguments") {
                Some(a) => {
                    let ks = children_of(nodes, a, true);
                    if ks.len() > 0 {
                        assert(ks@.map_values(|j: usize| j as int)[0] == ks@[0] as int);
                        Some(ks[0])
                    } else {
                        None
                    }
                },
                None => None,
            };
            match arg {
                Some(a) => {
                    if kind_is(nodes, a, "string") {
                        add_name(deps, unquote(node_text(nodes, a, source)));
                    } else {
                        *unresolved = unresolved.saturating_add(1);
                    }
                },
                None => {
                    *unresolved = unresolved.saturating_add(1);
                },
            }
        }
    }
    let require = if kind_is(nodes, i, "import_require_clause") {
        true
    } else if kind_is(nodes, i, "call_expression") {
        match child_by_field(nodes, i, "function") {
            Some(f) => {
                let t = node_text(nodes, f, source);
                proof {
                    reveal_strlit("require");
                }
                text_is(t, "require")
            },
            None => false,
        }
    } else {
        false
    };
    if require {
        *unresolved = unresolved.saturating_add(1);
    }
}

fn text_is(t: &str, s: &str) -> (b: bool)
    ensures
        b == (t@ == s@),
{
    t.to_owned() == s.to_owned()
}

/// An overload signature (a `function_signature` or `method_signature`)
/// adds its fingerprint to the signatures recorded under its qualified name.
pub open spec fn with_overload(nodes: Seq<SyntaxNode>, bytes: Seq<u8>, i: int, scope: Seq<char>, st: ScanView) -> ScanView {
    if is_kind(nodes, i, "function_signature"@) || is_kind(nodes, i, "method_signature"@) {
        match field_child(nodes, i, "name"@) {
            Some(n) => {
                let name = qualify(scope, text_of(nodes, bytes, n));
                let before = match lookup(st.3, name) {
                    Some(t) => t,
                    None => Seq::empty(),
                };
                (st.0, st.1, st.2, put(st.3, name, before + fingerprint_of(nodes, bytes, i, None)))
            },
            None => st,
        }
    } else {
        st
    }
}

fn note_overload(
    nodes: &Vec<SyntaxNode>,
    source: &str,
    i: usize,
    scope: &String,
    overloads: &mut Vec<(String, String)>,
)
    requires
        i < nodes@.len(),
    ensures
        final(overloads).deep_view() == with_overload(
            nodes@,
            source.spec_bytes(),
            i as int,
            scope@,
            (Seq::empty(), Seq::empty(), 0, old(overloads).deep_view()),
        ).3,
{
    if kind_is(nodes, i, "function_signature") || kind_is(nodes, i, "method_signature") {
        match child_by_field(nodes, i, "name") {
            Some(n) => {
                let name = qualified(scope, node_text(nodes, n, source));
                let mut text = match get_entry(overloads, &name) {
                    Some(t) => t.clone(),
                    None => String::new(),
                };
                let fp = fingerprint(nodes, source, i, None);
                text.append(fp.as_str());
                put_entry(overloads, name, text);
            },
            None => {},
        }
    }
}

/// The callable that node `i` defines: itself, or the callable in its
/// `value` field.
pub open spec fn function_of(nodes: Seq<SyntaxNode>, i: int) -> Option<int> {
    if callable(nodes, i) {
        Some(i)
    } else {
        match field_child(nodes, i, "value"@) {
            Some(v) => if callable(nodes, v) {
                Some(v)
            } else {
                None
            },
            None => None,
        }
    }
}

/// A callable in its parent's `value` field: the variable or property
/// owns its name, so it is not recorded twice.
pub open spec fn owned_by_parent(nodes: Seq<SyntaxNode>, i: int, parent: Option<int>) -> bool {
    callable(nodes, i) && match parent {
        Some(p) => field_child(nodes, p, "value"@) == Some(i),
        None => false,
    }
}

/// The name a callable is recorded under: the node's `name` or `key`, or
/// for an export the callable's own name or `default`.
pub open spec fn callable_name(nodes: Seq<SyntaxNode>, bytes: Seq<u8>, i: int, fun: int, parent: Option<int>) -> Option<Seq<char>> {
    match field_of(nodes, i, "name"@, "key"@) {
        Some(n) => Some(text_of(nodes, bytes, n)),
        None => if is_kind(nodes, i, "export_statement"@) {
            Some(
                match field_child(nodes, fun, "name"@) {
                    Some(n) => text_of(nodes, bytes, n),
                    None => "default"@,
                },
            )
        } else if (match parent {
            Some(p) => is_kind(nodes, p, "export_statement"@),
            None => false,
        }) {
            Some("default"@)
        } else {
            None
        },
    }
}

/// A class, object literal or namespace: a scope for the callables inside.
pub open spec fn container(nodes: Seq<SyntaxNode>, i: int) -> bool {
    is_kind(nodes, i, "class_declaration"@) || is_kind(nodes, i, "class"@) || is_kind(nodes, i, "object"@)
        || is_kind(nodes, i, "internal_module"@)
}

/// The holder of a value: a variable, a property or a class field.
pub open spec fn holder(nodes: Seq<SyntaxNode>, p: int) -> bool {
    is_kind(nodes, p, "variable_declarator"@) || is_kind(nodes, p, "pair"@) || is_kind(nodes, p, "public_field_definition"@)
}

/// The name of a container: its own, or that of the variable, property or
/// field that holds it.
pub open spec fn scope_name(nodes: Seq<SyntaxNode>, bytes: Seq<u8>, i: int, parent: Option<int>) -> Option<Seq<char>> {
    match field_child(nodes, i, "name"@) {
        Some(n) => Some(text_of(nodes, bytes, n)),
        None => match parent {
            Some(p) => if holder(nodes, p) {
                match field_of(nodes, p, "name"@, "key"@) {
                    Some(n) => Some(text_of(nodes, bytes, n)),
                    None => None,
                }
            } else {
                None
            },
            None => None,
        },
    }
}

/// A 0-based row as a 1-based line.
pub open spec fn line_of(row: usize) -> usize {
    if row < usize::MAX {
        (row + 1) as usize
    } else {
        row
    }
}

/// The record of the callable `fun` defined at node `i` with body `body`.
pub open spec fn function_entry(nodes: Seq<SyntaxNode>, bytes: Seq<u8>, i: int, fun: int, body: int) -> FunctionView {
    let info = call_info(nodes, bytes, fun, body);
    (
        line_of(nodes[i].start_row),
        fingerprint_of(nodes, bytes, i, Some(body)),
        fingerprint_of(nodes, bytes, body, None),
        info.0,
        info.1,
    )
}

/// What node `i` adds to the walk, and the scope its children are read in.
pub open spec fn step(nodes: Seq<SyntaxNode>, bytes: Seq<u8>, i: int, scope: Seq<char>, parent: Option<int>, st: ScanView) -> (ScanView, Seq<char>) {
    let st1 = with_overload(nodes, bytes, i, scope, with_imports(nodes, bytes, i, st));
    match function_of(nodes, i) {
        Some(fun) => if owned_by_parent(nodes, i, parent) {
            (st1, scope)
        } else {
            match callable_name(nodes, bytes, i, fun, parent) {
                Some(name) => {
                    let inner = qualify(scope, name);
                    match field_child(nodes, fun, "body"@) {
                        Some(b) => ((put(st1.0, inner, function_entry(nodes, bytes, i, fun, b)), st1.1, st1.2, st1.3), inner),
                        None => (st1, inner),
                    }
                },
                None => (st1, scope),
            }
        },
        None => if container(nodes, i) {
            match scope_name(nodes, bytes, i, parent) {
                Some(n) => (st1, qualify(scope, n)),
                None => (st1, scope),
            }
        } else {
            (st1, scope)
        },
    }
}

fn name_in(nodes: &Vec<SyntaxNode>, i: usize, source: &str, a: &str, b: &str) -> (r: Option<String>)
    requires
        i < nodes@.len(),
    ensures
        match r {
            Some(t) => field_of(nodes@, i as int, a@, b@) matches Some(n) && t@ == text_of(nodes@, source.spec_bytes(), n),
            None => field_of(nodes@, i as int, a@, b@) is None,
        },
{
    match child_in(nodes, i, a, b) {
        Some(n) => Some(node_text(nodes, n, source).to_owned()),
        None => None,
    }
}

fn scan_node(
    nodes: &Vec<SyntaxNode>,
    source: &str,
    i: usize,
    scope: &String,
    parent: Option<usize>,
    functions: &mut Vec<(String, ParsedFunction)>,
    deps: &mut Vec<String>,
    unresolved: &mut usize,
    overloads: &mut Vec<(String, String)>,
) -> (inner: String)
    requires
        i < nodes@.len(),
        parent matches Some(p) ==> p < nodes@.len(),
    ensures
        ({
            let r = step(
                nodes@,
                source.spec_bytes(),
                i as int,
                scope@,
                index_of(parent),
                (old(functions).deep_view(), old(deps).deep_view(), *old(unresolved), old(overloads).deep_view()),
            );
            &&& (final(functions).deep_view(), final(deps).deep_view(), *final(unresolved), final(overloads).deep_view()) == r.0
            &&& inner@ == r.1
        }),
{
    let ghost bytes = source.spec_bytes();
    let ghost st = (functions.deep_view(), deps.deep_view(), *unresolved, overloads.deep_view());
    note_imports(nodes, source, i, deps, unresolved);
    let ghost st0 = with_imports(nodes@, bytes, i as int, st);
    note_overload(nodes, source, i, scope, overloads);
    let ghost st1 = with_overload(nodes@, bytes, i as int, scope@, st0);
    assert((functions.deep_view(), deps.deep_view(), *unresolved, overloads.deep_view()) == st1);
    let fun = if is_callable(nodes, i) {
        Some(i)
    } else {
        match child_by_field(nodes, i, "value") {
            Some(v) => if is_callable(nodes, v) {
                Some(v)
            } else {
                None
            },
            None => None,
        }
    };
    assert(index_of(fun) == function_of(nodes@, i as int));
    match fun {
        Some(f) => {
            let owned = is_callable(nodes, i) && match parent {
                Some(p) => match child_by_field(nodes, p, "value") {
                    Some(v) => v == i,
                    None => false,
                },
                None => false,
            };
            if owned {
                return scope.clone();
            }
            let name = match name_in(nodes, i, source, "name", "key") {
                Some(n) => Some(n),
                None => if kind_is(nodes, i, "export_statement") {
                    match child_by_field(nodes, f, "name") {
                        Some(n) => Some(node_text(nodes, n, source).to_owned()),
                        None => {
                            proof {
                                reveal_strlit("default");
                            }
                            Some("default".to_owned())
                        },
                    }
                } else if match parent {
                    Some(p) => kind_is(nodes, p, "export_statement"),
                    None => false,
                } {
                    proof {
                        reveal_strlit("default");
                    }
                    Some("default".to_owned())
                } else {
                    None
                },
            };
            match name {
                Some(n) => {
                    let inner = qualified(scope, n.as_str());
                    match child_by_field(nodes, f, "body") {
                        Some(b) => {
                            let (calls, shadows) = calls_of(nodes, source, f, b);
                            let line = nodes[i].start_row.saturating_add(1);
                            let record = ParsedFunction {
                                line,
                                signature: fingerprint(nodes, source, i, Some(b)),
                                body: fingerprint(nodes, source, b, None),
                                calls,
                                shadows,
                            };
                            assert(record.deep_view() == function_entry(nodes@, bytes, i as int, f as int, b as int));
                            put_entry(functions, inner.clone(), record);
                        },
                        None => {},
                    }
                    inner
                },
                None => scope.clone(),
            }
        },
        None => {
            if kind_is(nodes, i, "class_declaration") || kind_is(nodes, i, "class") || kind_is(nodes, i, "object")
                || kind_is(nodes, i, "internal_module") {
                let name = match child_by_field(nodes, i, "name") {
                    Some(n) => Some(node_text(nodes, n, source).to_owned()),
                    None => match parent {
                        Some(p) => if kind_is(nodes, p, "variable_declarator") || kind_is(nodes, p, "pair") || kind_is(
                            nodes,
                            p,
                            "public_field_definition",
                        ) {
                            name_in(nodes, p, source, "name", "key")
                        } else {
                            None
                        },
                        None => None,
                    },
                };
                match name {
                    Some(n) => qualified(scope, n.as_str()),
                    None => scope.clone(),
                }
            } else {
                scope.clone()
            }
        },
    }
}

/// The walk over node `i` and everything under it, read in `scope` with
/// `parent` as the node it was reached from: each node's own additions in
/// document order.
pub open spec fn collected(nodes: Seq<SyntaxNode>, bytes: Seq<u8>, i: int, scope: Seq<char>, parent: Option<int>, st: ScanView) -> ScanView
    decreases nodes.len() - i, 1int, 0int,
{
    if i < 0 || i >= nodes.len() {
        st
    } else {
        let r = step(nodes, bytes, i, scope, parent, st);
        collected_kids(nodes, bytes, i, kids(nodes, i, true), r.1, r.0)
    }
}

pub open spec fn collected_kids(nodes: Seq<SyntaxNode>, bytes: Seq<u8>, lo: int, ks: Seq<int>, scope: Seq<char>, st: ScanView) -> ScanView
    decreases nodes.len() - lo, 0int, ks.len(),
{
    if ks.len() == 0 {
        st
    } else {
        let before = collected_kids(nodes, bytes, lo, ks.drop_last(), scope, st);
        let k = ks.last();
        if lo < k < nodes.len() {
            collected(nodes, bytes, k, scope, Some(lo), before)
        } else {
            before
        }
    }
}

fn collect(
    nodes: &Vec<SyntaxNode>,
    source: &str,
    i: usize,
    scope: &String,
    parent: Option<usize>,
    functions: &mut Vec<(String, ParsedFunction)>,
    deps: &mut Vec<String>,
    unresolved: &mut usize,
    overloads: &mut Vec<(String, String)>,
)
    requires
        i < nodes@.len(),
        parent matches Some(p) ==> p < nodes@.len(),
    ensures
        (final(functions).deep_view(), final(deps).deep_view(), *final(unresolved), final(overloads).deep_view())
            == collected(
            nodes@,
            source.spec_bytes(),
            i as int,
            scope@,
            index_of(parent),
            (old(functions).deep_view(), old(deps).deep_view(), *old(unresolved), old(overloads).deep_view()),
        ),
    decreases nodes@.len() - i,
{
    let ghost bytes = source.spec_bytes();
    let inner = scan_node(nodes, source, i, scope, parent, functions, deps, unresolved, overloads);
    let ks = children_of(nodes, i, true);
    let ghost kv = ks@.map_values(|j: usize| j as int);
    let ghost start = (functions.deep_view(), deps.deep_view(), *unresolved, overloads.deep_view());
    let mut k: usize = 0;
    assert(kv.take(0) =~= Seq::<int>::empty());
    while k < ks.len()
        invariant
            k <= ks@.len(),
            i < nodes@.len(),
            bytes == source.spec_bytes(),
            kv == kids(nodes@, i as int, true),
            kv == ks@.map_values(|j: usize| j as int),
            forall|m: int| 0 <= m < ks@.len() ==> i < #[trigger] ks@[m] < nodes@.len(),
            (functions.deep_view(), deps.deep_view(), *unresolved, overloads.deep_view()) == collected_kids(
                nodes@,
                bytes,
                i as int,
                kv.take(k as int),
                inner@,
                start,
            ),
        decreases ks@.len() - k,
    {
        let c = ks[k];
        assert(kv[k as int] == c as int);
        assert(kv.take(k + 1).drop_last() =~= kv.take(k as int));
        collect(nodes, source, c, &inner, Some(i), functions, deps, unresolved, overloads);
        k = k + 1;
    }
    assert(kv.take(k as int) =~= kv);
}

/// Imported names: local name, then the module and the name imported from
/// it (`default`, `*` for a namespace, or the exported name).
pub type ImportsView = Seq<(Seq<char>, (Seq<char>, Seq<char>))>;

/// Exported names: exported name, then the module it is re-exported from
/// (none for a local binding) and the name there.
pub type ExportsView = Seq<(Seq<char>, (Option<Seq<char>>, Seq<char>))>;

/// The specifier's local name: its `alias`, or its `name` when it has none.
pub open spec fn alias_of(nodes: Seq<SyntaxNode>, s: int, n: int) -> int {
    match field_child(nodes, s, "alias"@) {
        Some(a) => a,
        None => n,
    }
}

/// A specifier that names a type only.
pub open spec fn type_only(nodes: Seq<SyntaxNode>, bytes: Seq<u8>, s: int) -> bool {
    "type "@.is_prefix_of(text_of(nodes, bytes, s))
}

pub open spec fn import_specs(nodes: Seq<SyntaxNode>, bytes: Seq<u8>, specs: Seq<int>, path: Seq<char>, imports: ImportsView) -> ImportsView
    decreases specs.len(),
{
    if specs.len() == 0 {
        imports
    } else {
        let acc = import_specs(nodes, bytes, specs.drop_last(), path, imports);
        let s = specs.last();
        if type_only(nodes, bytes, s) {
            acc
        } else {
            match field_child(nodes, s, "name"@) {
                Some(n) => put(acc, text_of(nodes, bytes, alias_of(nodes, s, n)), (path, text_of(nodes, bytes, n))),
                None => acc,
            }
        }
    }
}

pub open spec fn import_item(nodes: Seq<SyntaxNode>, bytes: Seq<u8>, item: int, path: Seq<char>, imports: ImportsView) -> ImportsView {
    if is_kind(nodes, item, "identifier"@) {
        put(imports, text_of(nodes, bytes, item), (path, "default"@))
    } else if is_kind(nodes, item, "namespace_import"@) {
        if kids(nodes, item, true).len() > 0 {
            put(imports, text_of(nodes, bytes, kids(nodes, item, true)[0]), (path, "*"@))
        } else {
            imports
        }
    } else if is_kind(nodes, item, "named_imports"@) {
        import_specs(nodes, bytes, kids(nodes, item, true), path, imports)
    } else {
        imports
    }
}

pub open spec fn import_items(nodes: Seq<SyntaxNode>, bytes: Seq<u8>, items: Seq<int>, path: Seq<char>, imports: ImportsView) -> ImportsView
    decreases items.len(),
{
    if items.len() == 0 {
        imports
    } else {
        import_item(nodes, bytes, items.last(), path, import_items(nodes, bytes, items.drop_last(), path, imports))
    }
}

pub open spec fn import_clauses(nodes: Seq<SyntaxNode>, bytes: Seq<u8>, cs: Seq<int>, path: Seq<char>, imports: ImportsView) -> ImportsView
    decreases cs.len(),
{
    if cs.len() == 0 {
        imports
    } else {
        let acc = import_clauses(nodes, bytes, cs.drop_last(), path, imports);
        let c = cs.last();
        if is_kind(nodes, c, "import_clause"@) {
            import_items(nodes, bytes, kids(nodes, c, true), path, acc)
        } else {
            acc
        }
    }
}

pub open spec fn export_specs(nodes: Seq<SyntaxNode>, bytes: Seq<u8>, specs: Seq<int>, path: Option<Seq<char>>, exports: ExportsView) -> ExportsView
    decreases specs.len(),
{
    if specs.len() == 0 {
        exports
    } else {
        let acc = export_specs(nodes, bytes, specs.drop_last(), path, exports);
        let s = specs.last();
        if type_only(nodes, bytes, s) {
            acc
        } else {
            match field_child(nodes, s, "name"@) {
                Some(n) => put(acc, text_of(nodes, bytes, alias_of(nodes, s, n)), (path, text_of(nodes, bytes, n))),
                None => acc,
            }
        }
    }
}

/// The first of `ks` of kind `kind`.
pub open spec fn first_of_kind(nodes: Seq<SyntaxNode>, ks: Seq<int>, kind: Seq<char>) -> Option<int>
    decreases ks.len(),
{
    if ks.len() == 0 {
        None
    } else if is_kind(nodes, ks[0], kind) {
        Some(ks[0])
    } else {
        first_of_kind(nodes, ks.drop_first(), kind)
    }
}

pub open spec fn declared_exports(nodes: Seq<SyntaxNode>, bytes: Seq<u8>, bs: Seq<int>, exports: ExportsView) -> ExportsView
    decreases bs.len(),
{
    if bs.len() == 0 {
        exports
    } else {
        let acc = declared_exports(nodes, bytes, bs.drop_last(), exports);
        match field_child(nodes, bs.last(), "name"@) {
            Some(n) => put(acc, text_of(nodes, bytes, n), (None, text_of(nodes, bytes, n))),
            None => acc,
        }
    }
}

/// The names an exported declaration `decl` of statement `node` adds.
pub open spec fn declaration_exports(nodes: Seq<SyntaxNode>, bytes: Seq<u8>, node: int, decl: int, exports: ExportsView) -> ExportsView {
    let default = "export default "@.is_prefix_of(text_of(nodes, bytes, node));
    match field_child(nodes, decl, "name"@) {
        Some(n) => put(
            exports,
            if default {
                "default"@
            } else {
                text_of(nodes, bytes, n)
            },
            (None, text_of(nodes, bytes, n)),
        ),
        None => if default {
            put(
                exports,
                "default"@,
                (
                    None,
                    if is_kind(nodes, decl, "identifier"@) {
                        text_of(nodes, bytes, decl)
                    } else {
                        "default"@
                    },
                ),
            )
        } else {
            declared_exports(nodes, bytes, kids(nodes, decl, true), exports)
        },
    }
}

/// What a top-level statement adds to the imports, the exports and the
/// modules re-exported whole.
pub open spec fn binding_step(nodes: Seq<SyntaxNode>, bytes: Seq<u8>, node: int, b: (ImportsView, ExportsView, Seq<Seq<char>>)) -> (ImportsView, ExportsView, Seq<Seq<char>>) {
    let path = match field_child(nodes, node, "source"@) {
        Some(p) => Some(unquoted(text_of(nodes, bytes, p))),
        None => None,
    };
    if is_kind(nodes, node, "import_statement"@) && !"import type "@.is_prefix_of(text_of(nodes, bytes, node)) {
        match path {
            Some(pt) => (import_clauses(nodes, bytes, kids(nodes, node, true), pt, b.0), b.1, b.2),
            None => b,
        }
    } else if is_kind(nodes, node, "export_statement"@) && !"export type "@.is_prefix_of(text_of(nodes, bytes, node)) {
        let ks = kids(nodes, node, true);
        match first_of_kind(nodes, ks, "export_clause"@) {
            Some(c) => (b.0, export_specs(nodes, bytes, kids(nodes, c, true), path, b.1), b.2),
            None => match path {
                Some(pt) => if first_of_kind(nodes, ks, "namespace_export"@) is None {
                    (b.0, b.1, b.2.push(pt))
                } else {
                    b
                },
                None => match field_of(nodes, node, "declaration"@, "value"@) {
                    Some(d) => (b.0, declaration_exports(nodes, bytes, node, d, b.1), b.2),
                    None => b,
                },
            },
        }
    } else {
        b
    }
}

pub open spec fn bindings(nodes: Seq<SyntaxNode>, bytes: Seq<u8>, ks: Seq<int>, b: (ImportsView, ExportsView, Seq<Seq<char>>)) -> (ImportsView, ExportsView, Seq<Seq<char>>)
    decreases ks.len(),
{
    if ks.len() == 0 {
        b
    } else {
        binding_step(nodes, bytes, ks.last(), bindings(nodes, bytes, ks.drop_last(), b))
    }
}

fn note_import_specs(nodes: &Vec<SyntaxNode>, source: &str, item: usize, path: &String, imports: &mut Vec<(String, (String, String))>)
    requires
        item < nodes@.len(),
    ensures
        final(imports).deep_view() == import_specs(nodes@, source.spec_bytes(), kids(nodes@, item as int, true), path@, old(imports).deep_view()),
{
    let ghost bytes = source.spec_bytes();
    let ks = children_of(nodes, item, true);
    let ghost kv = ks@.map_values(|j: usize| j as int);
    let ghost start = imports.deep_view();
    let mut k: usize = 0;
    assert(kv.take(0) =~= Seq::<int>::empty());
    while k < ks.len()
        invariant
            k <= ks@.len(),
            bytes == source.spec_bytes(),
            kv == kids(nodes@, item as int, true),
            kv == ks@.map_values(|j: usize| j as int),
            forall|m: int| 0 <= m < ks@.len() ==> item < #[trigger] ks@[m] < nodes@.len(),
            imports.deep_view() == import_specs(nodes@, bytes, kv.take(k as int), path@, start),
        decreases ks@.len() - k,
    {
        let s = ks[k];
        assert(kv[k as int] == s as int);
        assert(kv.take(k + 1).drop_last() =~= kv.take(k as int));
        if !text_starts(node_text(nodes, s, source), "type ") {
            match child_by_field(nodes, s, "name") {
                Some(n) => {
                    let a = match child_by_field(nodes, s, "alias") {
                        Some(a) => a,
                        None => n,
                    };
                    put_entry(
                        imports,
                        node_text(nodes, a, source).to_owned(),
                        (path.clone(), node_text(nodes, n, source).to_owned()),
                    );
                },
                None => {},
            }
        }
        k = k + 1;
    }
    assert(kv.take(k as int) =~= kv);
}

fn note_import_clauses(nodes: &Vec<SyntaxNode>, source: &str, node: usize, path: &String, imports: &mut Vec<(String, (String, String))>)
    requires
        node < nodes@.len(),
    ensures
        final(imports).deep_view() == import_clauses(nodes@, source.spec_bytes(), kids(nodes@, node as int, true), path@, old(imports).deep_view()),
{
    let ghost bytes = source.spec_bytes();
    let cs = children_of(nodes, node, true);
    let ghost cv = cs@.map_values(|j: usize| j as int);
    let ghost start = imports.deep_view();
    let mut k: usize = 0;
    assert(cv.take(0) =~= Seq::<int>::empty());
    while k < cs.len()
        invariant
            k <= cs@.len(),
            bytes == source.spec_bytes(),
            cv == kids(nodes@, node as int, true),
            cv == cs@.map_values(|j: usize| j as int),
            forall|m: int| 0 <= m < cs@.len() ==> node < #[trigger] cs@[m] < nodes@.len(),
            imports.deep_view() == import_clauses(nodes@, bytes, cv.take(k as int), path@, start),
        decreases cs@.len() - k,
    {
        let c = cs[k];
        assert(cv[k as int] == c as int);
        assert(cv.take(k + 1).drop_last() =~= cv.take(k as int));
        if kind_is(nodes, c, "import_clause") {
            let items = children_of(nodes, c, true);
            let ghost iv = items@.map_values(|j: usize| j as int);
            let ghost before = imports.deep_view();
            let mut m: usize = 0;
            assert(iv.take(0) =~= Seq::<int>::empty());
            while m < items.len()
                invariant
                    m <= items@.len(),
                    bytes == source.spec_bytes(),
                    iv == kids(nodes@, c as int, true),
                    iv == items@.map_values(|j: usize| j as int),
                    forall|q: int| 0 <= q < items@.len() ==> c < #[trigger] items@[q] < nodes@.len(),
                    imports.deep_view() == import_items(nodes@, bytes, iv.take(m as int), path@, before),
                decreases items@.len() - m,
            {
                let item = items[m];
                assert(iv[m as int] == item as int);
                assert(iv.take(m + 1).drop_last() =~= iv.take(m as int));
                if kind_is(nodes, item, "identifier") {
                    proof {
                        reveal_strlit("default");
                    }
                    put_entry(imports, node_text(nodes, item, source).to_owned(), (path.clone(), "default".to_owned()));
                } else if kind_is(nodes, item, "namespace_import") {
                    let ns = children_of(nodes, item, true);
                    if ns.len() > 0 {
                        assert(ns@.map_values(|j: usize| j as int)[0] == ns@[0] as int);
                        proof {
                            reveal_strlit("*");
                        }
                        put_entry(imports, node_text(nodes, ns[0], source).to_owned(), (path.clone(), "*".to_owned()));
                    }
                } else if kind_is(nodes, item, "named_imports") {
                    note_import_specs(nodes, source, item, path, imports);
                }
                m = m + 1;
            }
            assert(iv.take(m as int) =~= iv);
        }
        k = k + 1;
    }
    assert(cv.take(k as int) =~= cv);
}

fn note_export_specs(nodes: &Vec<SyntaxNode>, source: &str, clause: usize, path: &Option<String>, exports: &mut Vec<(String, (Option<String>, String))>)
    requires
        clause < nodes@.len(),
    ensures
        final(exports).deep_view() == export_specs(nodes@, source.spec_bytes(), kids(nodes@, clause as int, true), path.deep_view(), old(exports).deep_view()),
{
    let ghost bytes = source.spec_bytes();
    let ks = children_of(nodes, clause, true);
    let ghost kv = ks@.map_values(|j: usize| j as int);
    let ghost start = exports.deep_view();
    let mut k: usize = 0;
    assert(kv.take(0) =~= Seq::<int>::empty());
    while k < ks.len()
        invariant
            k <= ks@.len(),
            bytes == source.spec_bytes(),
            kv == kids(nodes@, clause as int, true),
            kv == ks@.map_values(|j: usize| j as int),
            forall|m: int| 0 <= m < ks@.len() ==> clause < #[trigger] ks@[m] < nodes@.len(),
            exports.deep_view() == export_specs(nodes@, bytes, kv.take(k as int), path.deep_view(), start),
        decreases ks@.len() - k,
    {
        let s = ks[k];
        assert(kv[k as int] == s as int);
        assert(kv.take(k + 1).drop_last() =~= kv.take(k as int));
        if !text_starts(node_text(nodes, s, source), "type ") {
            match child_by_field(nodes, s, "name") {
                Some(n) => {
                    let a = match child_by_field(nodes, s, "alias") {
                        Some(a) => a,
                        None => n,
                    };
                    put_entry(
                        exports,
                        node_text(nodes, a, source).to_owned(),
                        (path.clone(), node_text(nodes, n, source).to_owned()),
                    );
                },
                None => {},
            }
        }
        k = k + 1;
    }
    assert(kv.take(k as int) =~= kv);
}

fn note_declaration(nodes: &Vec<SyntaxNode>, source: &str, node: usize, decl: usize, exports: &mut Vec<(String, (Option<String>, String))>)
    requires
        node < nodes@.len(),
        decl < nodes@.len(),
    ensures
        final(exports).deep_view() == declaration_exports(nodes@, source.spec_bytes(), node as int, decl as int, old(exports).deep_view()),
{
    let ghost bytes = source.spec_bytes();
    let default = text_starts(node_text(nodes, node, source), "export default ");
    proof {
        reveal_strlit("default");
    }
    match child_by_field(nodes, decl, "name") {
        Some(n) => {
            let name = node_text(nodes, n, source).to_owned();
            let key = if default {
                "default".to_owned()
            } else {
                name.clone()
            };
            put_entry(exports, key, (None, name));
        },
        None => {
            if default {
                let name = if kind_is(nodes, decl, "identifier") {
                    node_text(nodes, decl, source).to_owned()
                } else {
                    "default".to_owned()
                };
                put_entry(exports, "default".to_owned(), (None, name));
            } else {
                let bs = children_of(nodes, decl, true);
                let ghost bv = bs@.map_values(|j: usize| j as int);
                let ghost start = exports.deep_view();
                let mut k: usize = 0;
                assert(bv.take(0) =~= Seq::<int>::empty());
                while k < bs.len()
                    invariant
                        k <= bs@.len(),
                        bytes == source.spec_bytes(),
                        bv == kids(nodes@, decl as int, true),
                        bv == bs@.map_values(|j: usize| j as int),
                        forall|m: int| 0 <= m < bs@.len() ==> decl < #[trigger] bs@[m] < nodes@.len(),
                        exports.deep_view() == declared_exports(nodes@, bytes, bv.take(k as int), start),
                    decreases bs@.len() - k,
                {
                    let b = bs[k];
                    assert(bv[k as int] == b as int);
                    assert(bv.take(k + 1).drop_last() =~= bv.take(k as int));
                    match child_by_field(nodes, b, "name") {
                        Some(n) => {
                            let name = node_text(nodes, n, source).to_owned();
                            put_entry(exports, name.clone(), (None, name));
                        },
                        None => {},
                    }
                    k = k + 1;
                }
                assert(bv.take(k as int) =~= bv);
            }
        },
    }
}

fn find_kind(nodes: &Vec<SyntaxNode>, ks: &Vec<usize>, kind: &str) -> (r: Option<usize>)
    requires
        forall|m: int| 0 <= m < ks@.len() ==> #[trigger] ks@[m] < nodes@.len(),
    ensures
        index_of(r) == first_of_kind(nodes@, ks@.map_values(|j: usize| j as int), kind@),
        r matches Some(c) ==> c < nodes@.len(),
{
    let ghost kv = ks@.map_values(|j: usize| j as int);
    let mut k: usize = 0;
    assert(kv.skip(0) =~= kv);
    while k < ks.len()
        invariant
            k <= ks@.len(),
            kv == ks@.map_values(|j: usize| j as int),
            forall|m: int| 0 <= m < ks@.len() ==> #[trigger] ks@[m] < nodes@.len(),
            first_of_kind(nodes@, kv, kind@) == first_of_kind(nodes@, kv.skip(k as int), kind@),
        decreases ks@.len() - k,
    {
        assert(kv.skip(k as int)[0] == ks@[k as int] as int);
        if kind_is(nodes, ks[k], kind) {
            return Some(ks[k]);
        }
        assert(kv.skip(k as int).drop_first() =~= kv.skip(k + 1));
        k = k + 1;
    }
    None
}

fn note_statement(
    nodes: &Vec<SyntaxNode>,
    source: &str,
    node: usize,
    imports: &mut Vec<(String, (String, String))>,
    exports: &mut Vec<(String, (Option<String>, String))>,
    stars: &mut Vec<String>,
)
    requires
        node < nodes@.len(),
    ensures
        (final(imports).deep_view(), final(exports).deep_view(), final(stars).deep_view()) == binding_step(
            nodes@,
            source.spec_bytes(),
            node as int,
            (old(imports).deep_view(), old(exports).deep_view(), old(stars).deep_view()),
        ),
{
    let path = match child_by_field(nodes, node, "source") {
        Some(p) => Some(unquote(node_text(nodes, p, source))),
        None => None,
    };
    let text = node_text(nodes, node, source);
    if kind_is(nodes, node, "import_statement") && !text_starts(text, "import type ") {
        match &path {
            Some(pt) => note_import_clauses(nodes, source, node, pt, imports),
            None => {},
        }
    } else if kind_is(nodes, node, "export_statement") && !text_starts(text, "export type ") {
        let ks = children_of(nodes, node, true);
        match find_kind(nodes, &ks, "export_clause") {
            Some(c) => note_export_specs(nodes, source, c, &path, exports),
            None => match path {
                Some(pt) => {
                    if find_kind(nodes, &ks, "namespace_export").is_none() {
                        let ghost before = stars.deep_view();
                        stars.push(pt);
                        assert(stars.deep_view() =~= before.push(pt@));
                    }
                },
                None => match child_in(nodes, node, "declaration", "value") {
                    Some(d) => note_declaration(nodes, source, node, d, exports),
                    None => {},
                },
            },
        }
    }
}

/// What the radar knows of one file: its callables by qualified name, the
/// modules it imports, the fingerprint of its bytes, how many of its imports
/// cannot be resolved statically, whether it failed to parse, and the names
/// it imports, exports and re-exports whole. Tables are sorted by key.
#[derive(Clone, Debug)]
pub struct Module {
    pub functions: Vec<(String, ParsedFunction)>,
    pub dependencies: Vec<String>,
    pub fingerprint: String,
    pub unresolved_dynamic: usize,
    pub parse_error: bool,
    pub imports: Vec<(String, (String, String))>,
    pub exports: Vec<(String, (Option<String>, String))>,
    pub export_stars: Vec<String>,
}

/// A module as plain values, field by field.
pub type ModuleView = (
    Seq<(Seq<char>, FunctionView)>,
    Seq<Seq<char>>,
    Seq<char>,
    usize,
    bool,
    ImportsView,
    ExportsView,
    Seq<Seq<char>>,
);

impl DeepView for Module {
    type V = ModuleView;

    open spec fn deep_view(&self) -> ModuleView {
        (
            self.functions.deep_view(),
            self.dependencies.deep_view(),
            self.fingerprint@,
            self.unresolved_dynamic,
            self.parse_error,
            self.imports.deep_view(),
            self.exports.deep_view(),
            self.export_stars.deep_view(),
        )
    }
}

/// Each callable's signature with the overload signatures recorded under
/// its name appended.
pub open spec fn with_overloads(functions: Seq<(Seq<char>, FunctionView)>, overloads: Seq<(Seq<char>, Seq<char>)>) -> Seq<(Seq<char>, FunctionView)> {
    functions.map_values(
        |e: (Seq<char>, FunctionView)|
            (
                e.0,
                (
                    e.1.0,
                    e.1.1 + match lookup(overloads, e.0) {
                        Some(t) => t,
                        None => Seq::empty(),
                    },
                    e.1.2,
                    e.1.3,
                    e.1.4,
                ),
            ),
    )
}

/// The module of a source with bytes `bytes` from what the parser returned
/// for it. When there is no tree, or the tree holds an error or a missing
/// node, only the fingerprint is kept and `parse_error` is set.
pub open spec fn module_from(bytes: Seq<u8>, parsed: Option<Seq<SyntaxNode>>) -> ModuleView {
    let fingerprint = hex(sha256_of(bytes));
    let failed: ModuleView = (Seq::empty(), Seq::empty(), fingerprint, 0, true, Seq::empty(), Seq::empty(), Seq::empty());
    match parsed {
        Some(nodes) => if nodes.len() > 0 && error_count(nodes, nodes.len() as int) == 0 {
            let st = collected(nodes, bytes, 0, Seq::empty(), None, (Seq::empty(), Seq::empty(), 0, Seq::empty()));
            let b = bindings(nodes, bytes, kids(nodes, 0, true), (Seq::empty(), Seq::empty(), Seq::empty()));
            (with_overloads(st.0, st.3), st.1, fingerprint, st.2, false, b.0, b.1, b.2)
        } else {
            failed
        },
        None => failed,
    }
}

fn has_errors(nodes: &Vec<SyntaxNode>) -> (b: bool)
    ensures
        b == (error_count(nodes@, nodes@.len() as int) > 0),
{
    let mut i: usize = 0;
    while i < nodes.len()
        invariant
            i <= nodes@.len(),
            error_count(nodes@, i as int) == 0,
        decreases nodes@.len() - i,
    {
        if nodes[i].is_error || nodes[i].is_missing {
            proof {
                lemma_errors_grow(nodes@, i as int, nodes@.len() as int);
            }
            return true;
        }
        i = i + 1;
    }
    false
}

proof fn lemma_errors_grow(nodes: Seq<SyntaxNode>, i: int, n: int)
    requires
        0 <= i < n <= nodes.len(),
        nodes[i].is_error || nodes[i].is_missing,
    ensures
        error_count(nodes, n) > 0,
    decreases n,
{
    if n > i + 1 {
        lemma_errors_grow(nodes, i, n - 1);
    }
}

pub(crate) fn copy_names(v: &Vec<String>) -> (r: Vec<String>)
    ensures
        r.deep_view() == v.deep_view(),
{
    let mut r: Vec<String> = Vec::new();
    let mut i: usize = 0;
    while i < v.len()
        invariant
            i <= v@.len(),
            r.deep_view() == v.deep_view().take(i as int),
        decreases v@.len() - i,
    {
        let ghost before = r.deep_view();
        r.push(v[i].clone());
        assert(r.deep_view() =~= before.push(v@[i as int]@));
        assert(v.deep_view().take(i + 1) =~= v.deep_view().take(i as int).push(v@[i as int]@));
        i = i + 1;
    }
    assert(v.deep_view().take(i as int) =~= v.deep_view());
    r
}

/// The module of `source` from what the parser returned for it.
pub fn module_from_syntax(source: &str, parsed: Option<Vec<SyntaxNode>>) -> (m: Module)
    ensures
        m.deep_view() == module_from(source.spec_bytes(), nodes_view(parsed)),
{
    let fingerprint = digest_bytes(source.as_bytes());
    let failed = Module {
        functions: Vec::new(),
        dependencies: Vec::new(),
        fingerprint: fingerprint.clone(),
        unresolved_dynamic: 0,
        parse_error: true,
        imports: Vec::new(),
        exports: Vec::new(),
        export_stars: Vec::new(),
    };
    let nodes = match parsed {
        Some(nodes) => nodes,
        None => {
            assert(failed.deep_view() =~~= module_from(source.spec_bytes(), None));
            return failed;
        },
    };
    if nodes.len() == 0 || has_errors(&nodes) {
        proof {
            if nodes@.len() > 0 {
                assert(error_count(nodes@, nodes@.len() as int) > 0);
            }
        }
        assert(failed.deep_view() =~~= module_from(source.spec_bytes(), Some(nodes@)));
        return failed;
    }
    let ghost bytes = source.spec_bytes();
    let mut functions: Vec<(String, ParsedFunction)> = Vec::new();
    let mut deps: Vec<String> = Vec::new();
    let mut unresolved: usize = 0;
    let mut overloads: Vec<(String, String)> = Vec::new();
    let top = String::new();
    assert(functions.deep_view() =~= Seq::<(Seq<char>, FunctionView)>::empty());
    assert(deps.deep_view() =~= Seq::<Seq<char>>::empty());
    assert(overloads.deep_view() =~= Seq::<(Seq<char>, Seq<char>)>::empty());
    collect(&nodes, source, 0, &top, None, &mut functions, &mut deps, &mut unresolved, &mut overloads);
    let ghost st = collected(nodes@, bytes, 0, Seq::empty(), None, (Seq::empty(), Seq::empty(), 0, Seq::empty()));
    assert(top@ =~= Seq::<char>::empty());
    let mut imports: Vec<(String, (String, String))> = Vec::new();
    let mut exports: Vec<(String, (Option<String>, String))> = Vec::new();
    let mut stars: Vec<String> = Vec::new();
    let ks = children_of(&nodes, 0, true);
    let ghost kv = ks@.map_values(|j: usize| j as int);
    let ghost start: (ImportsView, ExportsView, Seq<Seq<char>>) = (Seq::empty(), Seq::empty(), Seq::empty());
    assert(imports.deep_view() =~= start.0);
    assert(exports.deep_view() =~= start.1);
    assert(stars.deep_view() =~= start.2);
    let mut k: usize = 0;
    assert(kv.take(0) =~= Seq::<int>::empty());
    while k < ks.len()
        invariant
            k <= ks@.len(),
            bytes == source.spec_bytes(),
            kv == kids(nodes@, 0, true),
            kv == ks@.map_values(|j: usize| j as int),
            forall|m: int| 0 <= m < ks@.len() ==> 0 < #[trigger] ks@[m] < nodes@.len(),
            (imports.deep_view(), exports.deep_view(), stars.deep_view()) == bindings(nodes@, bytes, kv.take(k as int), start),
        decreases ks@.len() - k,
    {
        let c = ks[k];
        assert(kv[k as int] == c as int);
        assert(kv.take(k + 1).drop_last() =~= kv.take(k as int));
        note_statement(&nodes, source, c, &mut imports, &mut exports, &mut stars);
        k = k + 1;
    }
    assert(kv.take(k as int) =~= kv);
    let mut merged: Vec<(String, ParsedFunction)> = Vec::new();
    let mut i: usize = 0;
    while i < functions.len()
        invariant
            i <= functions@.len(),
            functions.deep_view() == st.0,
            overloads.deep_view() == st.3,
            merged.deep_view() == with_overloads(st.0.take(i as int), st.3),
        decreases functions@.len() - i,
    {
        let (name, f) = &functions[i];
        assert(st.0[i as int] == functions@[i as int].deep_view());
        let mut signature = f.signature.clone();
        match get_entry(&overloads, name) {
            Some(extra) => signature.append(extra.as_str()),
            None => {},
        }
        let record = ParsedFunction {
            line: f.line,
            signature,
            body: f.body.clone(),
            calls: copy_names(&f.calls),
            shadows: copy_names(&f.shadows),
        };
        let ghost before = merged.deep_view();
        merged.push((name.clone(), record));
        assert(st.0.take(i + 1) =~= st.0.take(i as int).push(st.0[i as int]));
        assert(merged.deep_view() =~= before.push((name@, record.deep_view())));
        i = i + 1;
    }
    assert(st.0.take(i as int) =~= st.0);
    let m = Module {
        functions: merged,
        dependencies: deps,
        fingerprint,
        unresolved_dynamic: unresolved,
        parse_error: false,
        imports,
        exports,
        export_stars: stars,
    };
    m
}

/// A JavaScript extension.
pub open spec fn script_extension(e: Seq<char>) -> bool {
    e == "js"@ || e == "jsx"@ || e == "mjs"@ || e == "cjs"@
}

/// The grammar a radar file is read with: TSX for paths ending in `.tsx`,
/// JavaScript for the JavaScript extensions, TypeScript otherwise.
pub open spec fn grammar_for(path: Seq<char>) -> Grammar {
    if ".tsx"@.is_suffix_of(path) {
        Grammar::Tsx
    } else if (match extension(path) {
        Some(e) => script_extension(e),
        None => false,
    }) {
        Grammar::JavaScript
    } else {
        Grammar::TypeScript
    }
}

/// The grammar that the file at `path` is read with.
pub fn grammar_for_path(path: &str) -> (g: Grammar)
    ensures
        g == grammar_for(path@),
{
    let cs = chars_of(path);
    if crate::radar::ends_with_text(&cs, ".tsx") {
        return Grammar::Tsx;
    }
    match extension_of(path) {
        Some(e) => if chars_are(&e, "js") || chars_are(&e, "jsx") || chars_are(&e, "mjs") || chars_are(&e, "cjs") {
            Grammar::JavaScript
        } else {
            Grammar::TypeScript
        },
        None => Grammar::TypeScript,
    }
}

/// Reads the file at `path` with the grammar its path calls for. The result
/// is [`module_from`] of the syntax the parser gives for `source`: the
/// fingerprint of `source` always, and the rest only from a tree without
/// errors.
pub fn parse_module(path: &str, source: &str) -> (m: Module)
    ensures
        exists|parsed: Option<Seq<SyntaxNode>>|
            m.deep_view() == #[trigger] module_from(source.spec_bytes(), parsed)
                && parsed_from(parsed, source@, grammar_for(path@)),
        m.fingerprint@ == hex(sha256_of(source.spec_bytes())),
{
    let parsed = parse_syntax(source, grammar_for_path(path));
    let ghost pv = nodes_view(parsed);
    assert(parsed_from(pv, source@, grammar_for(path@)));
    let m = module_from_syntax(source, parsed);
    assert(m.deep_view() == module_from(source.spec_bytes(), pv));
    m
}

} // verus!
