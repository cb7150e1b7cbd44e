//! Tables keyed by text, kept as `BTreeMap` and `BTreeSet` keep them: the
//! entries sorted by key, a key at most once, a new value for a key
//! replacing the old one.
use vstd::prelude::*;
use crate::file_tree::{chars_before, lex_less, lemma_lex_transitive, strictly_sorted};
use crate::text::chars_of;

verus! {

/// `s` with `k` mapped to `v`: the entry for `k` replaced, or a new entry
/// placed before the first key that sorts after `k`.
pub open spec fn put<V>(s: Seq<(Seq<char>, V)>, k: Seq<char>, v: V) -> Seq<(Seq<char>, V)>
    decreases s.len(),
{
    if s.len() == 0 {
        seq![(k, v)]
    } else if s[0].0 == k {
        seq![(k, v)] + s.drop_first()
    } else if lex_less(k, s[0].0) {
        seq![(k, v)] + s
    } else {
        seq![s[0]] + put(s.drop_first(), k, v)
    }
}

/// `s` with `k` added before the first key that sorts after it, unless it
/// is there already.
pub open spec fn add_key(s: Seq<Seq<char>>, k: Seq<char>) -> Seq<Seq<char>>
    decreases s.len(),
{
    if s.len() == 0 {
        seq![k]
    } else if s[0] == k {
        s
    } else if lex_less(k, s[0]) {
        seq![k] + s
    } else {
        seq![s[0]] + add_key(s.drop_first(), k)
    }
}

/// The value of the first entry for `k`.
pub open spec fn lookup<V>(s: Seq<(Seq<char>, V)>, k: Seq<char>) -> Option<V>
    decreases s.len(),
{
    if s.len() == 0 {
        None
    } else if s[0].0 == k {
        Some(s[0].1)
    } else {
        lookup(s.drop_first(), k)
    }
}

/// The keys of a table, in order.
pub open spec fn keys<V>(s: Seq<(Seq<char>, V)>) -> Seq<Seq<char>> {
    s.map_values(|e: (Seq<char>, V)| e.0)
}

pub(crate) fn key_before(a: &str, b: &str) -> (r: bool)
    ensures
        r == lex_less(a@, b@),
{
    chars_before(&chars_of(a), &chars_of(b))
}

proof fn lemma_put_skip<V>(s: Seq<(Seq<char>, V)>, k: Seq<char>, v: V, i: int)
    requires
        0 <= i <= s.len(),
        forall|j: int| 0 <= j < i ==> s[j].0 != k && !lex_less(k, #[trigger] s[j].0),
    ensures
        put(s, k, v) == s.take(i) + put(s.skip(i), k, v),
    decreases i,
{
    if i == 0 {
        assert(s.skip(0) =~= s);
        assert(s.take(0) + put(s.skip(0), k, v) =~= put(s, k, v));
    } else {
        assert(s[0].0 != k && !lex_less(k, s[0].0));
        lemma_put_skip(s.drop_first(), k, v, i - 1);
        assert(s.drop_first().skip(i - 1) =~= s.skip(i));
        assert(seq![s[0]] + s.drop_first().take(i - 1) =~= s.take(i));
        assert(put(s, k, v) == seq![s[0]] + put(s.drop_first(), k, v));
        assert(seq![s[0]] + (s.drop_first().take(i - 1) + put(s.skip(i), k, v)) =~= s.take(i) + put(s.skip(i), k, v));
    }
}

proof fn lemma_add_skip(s: Seq<Seq<char>>, k: Seq<char>, i: int)
    requires
        0 <= i <= s.len(),
        forall|j: int| 0 <= j < i ==> s[j] != k && !lex_less(k, #[trigger] s[j]),
    ensures
        add_key(s, k) == s.take(i) + add_key(s.skip(i), k),
    decreases i,
{
    if i == 0 {
        assert(s.skip(0) =~= s);
        assert(s.take(0) + add_key(s.skip(0), k) =~= add_key(s, k));
    } else {
        assert(s[0] != k && !lex_less(k, s[0]));
        lemma_add_skip(s.drop_first(), k, i - 1);
        assert(s.drop_first().skip(i - 1) =~= s.skip(i));
        assert(seq![s[0]] + s.drop_first().take(i - 1) =~= s.take(i));
        assert(seq![s[0]] + (s.drop_first().take(i - 1) + add_key(s.skip(i), k)) =~= s.take(i) + add_key(s.skip(i), k));
    }
}

/// Maps `k` to `v` in a table.
pub fn put_entry<V: DeepView>(table: &mut Vec<(String, V)>, k: String, v: V)
    ensures
        final(table).deep_view() == put(old(table).deep_view(), k@, v.deep_view()),
{
    let ghost s = old(table).deep_view();
    let mut i: usize = 0;
    while i < table.len() && table[i].0 != k && !key_before(k.as_str(), table[i].0.as_str())
        invariant
            i <= table@.len(),
            table.deep_view() == s,
            s.len() == table@.len(),
            forall|j: int| 0 <= j < i ==> s[j].0 != k@ && !lex_less(k@, #[trigger] s[j].0),
        decreases table@.len() - i,
    {
        assert(s[i as int] == table@[i as int].deep_view());
        i = i + 1;
    }
    proof {
        lemma_put_skip(s, k@, v.deep_view(), i as int);
    }
    let ghost kv = k@;
    let ghost vv = v.deep_view();
    let ghost rest = s.skip(i as int);
    if i < table.len() {
        assert(s[i as int] == table@[i as int].deep_view());
        assert(rest[0] == s[i as int]);
    }
    if i < table.len() && table[i].0 == k {
        table.set(i, (k, v));
        assert(rest.drop_first() =~= s.skip(i + 1));
        assert(table.deep_view() =~= s.take(i as int) + (seq![(kv, vv)] + s.skip(i + 1)));
    } else {
        table.insert(i, (k, v));
        assert(table.deep_view() =~= s.take(i as int) + (seq![(kv, vv)] + rest));
    }
}

/// Adds `k` to a set of keys.
pub fn add_name(set: &mut Vec<String>, k: String)
    ensures
        final(set).deep_view() == add_key(old(set).deep_view(), k@),
{
    let ghost s = old(set).deep_view();
    let mut i: usize = 0;
    while i < set.len() && set[i] != k && !key_before(k.as_str(), set[i].as_str())
        invariant
            i <= set@.len(),
            set.deep_view() == s,
            s.len() == set@.len(),
            forall|j: int| 0 <= j < i ==> s[j] != k@ && !lex_less(k@, #[trigger] s[j]),
        decreases set@.len() - i,
    {
        assert(s[i as int] == set@[i as int]@);
        i = i + 1;
    }
    proof {
        lemma_add_skip(s, k@, i as int);
    }
    let ghost kv = k@;
    let ghost rest = s.skip(i as int);
    if i < set.len() {
        assert(s[i as int] == set@[i as int]@);
        assert(rest[0] == s[i as int]);
    }
    if i < set.len() && set[i] == k {
        assert(s.take(i as int) + rest =~= s);
    } else {
        set.insert(i, k);
        assert(set.deep_view() =~= s.take(i as int) + (seq![kv] + rest));
    }
}

/// The value of `k` in a table.
pub fn get_entry<'a, V: DeepView>(table: &'a Vec<(String, V)>, k: &String) -> (r: Option<&'a V>)
    ensures
        match r {
            Some(x) => lookup(table.deep_view(), k@) == Some(x.deep_view()),
            None => lookup(table.deep_view(), k@) is None,
        },
{
    let ghost s = table.deep_view();
    let mut i: usize = 0;
    assert(s.skip(0) =~= s);
    while i < table.len()
        invariant
            i <= table@.len(),
            s == table.deep_view(),
            s.len() == table@.len(),
            lookup(s, k@) == lookup(s.skip(i as int), k@),
        decreases table@.len() - i,
    {
        assert(s[i as int] == table@[i as int].deep_view());
        assert(s.skip(i as int)[0] == s[i as int]);
        if table[i].0 == *k {
            return Some(&table[i].1);
        }
        assert(s.skip(i as int).drop_first() =~= s.skip(i + 1));
        i = i + 1;
    }
    None
}

/// Pair `a` sorts before `b`: by first text, then by second.
pub open spec fn pair_less(a: (Seq<char>, Seq<char>), b: (Seq<char>, Seq<char>)) -> bool {
    lex_less(a.0, b.0) || (a.0 == b.0 && lex_less(a.1, b.1))
}

/// `s` with pair `p` added before the first pair that sorts after it,
/// unless it is there already.
pub open spec fn add_pair(s: Seq<(Seq<char>, Seq<char>)>, p: (Seq<char>, Seq<char>)) -> Seq<(Seq<char>, Seq<char>)>
    decreases s.len(),
{
    if s.len() == 0 {
        seq![p]
    } else if s[0] == p {
        s
    } else if pair_less(p, s[0]) {
        seq![p] + s
    } else {
        seq![s[0]] + add_pair(s.drop_first(), p)
    }
}

proof fn lemma_pair_skip(s: Seq<(Seq<char>, Seq<char>)>, p: (Seq<char>, Seq<char>), i: int)
    requires
        0 <= i <= s.len(),
        forall|j: int| 0 <= j < i ==> s[j] != p && !pair_less(p, #[trigger] s[j]),
    ensures
        add_pair(s, p) == s.take(i) + add_pair(s.skip(i), p),
    decreases i,
{
    if i == 0 {
        assert(s.skip(0) =~= s);
        assert(s.take(0) + add_pair(s.skip(0), p) =~= add_pair(s, p));
    } else {
        assert(s[0] != p && !pair_less(p, s[0]));
        lemma_pair_skip(s.drop_first(), p, i - 1);
        assert(s.drop_first().skip(i - 1) =~= s.skip(i));
        assert(seq![s[0]] + s.drop_first().take(i - 1) =~= s.take(i));
        assert(seq![s[0]] + (s.drop_first().take(i - 1) + add_pair(s.skip(i), p)) =~= s.take(i) + add_pair(s.skip(i), p));
    }
}

fn pair_before(a: &String, b: &String, c: &String, d: &String) -> (r: bool)
    ensures
        r == pair_less((a@, b@), (c@, d@)),
{
    key_before(a.as_str(), c.as_str()) || (*a == *c && key_before(b.as_str(), d.as_str()))
}

/// Adds the pair `(a, b)` to a set of pairs.
pub fn add_pair_entry(set: &mut Vec<(String, String)>, a: String, b: String)
    ensures
        final(set).deep_view() == add_pair(old(set).deep_view(), (a@, b@)),
{
    let ghost s = old(set).deep_view();
    let ghost p = (a@, b@);
    let mut i: usize = 0;
    while i < set.len() && !(set[i].0 == a && set[i].1 == b) && !pair_before(&a, &b, &set[i].0, &set[i].1)
        invariant
            i <= set@.len(),
            set.deep_view() == s,
            s.len() == set@.len(),
            p == (a@, b@),
            forall|j: int| 0 <= j < i ==> s[j] != p && !pair_less(p, #[trigger] s[j]),
        decreases set@.len() - i,
    {
        assert(s[i as int] == set@[i as int].deep_view());
        i = i + 1;
    }
    proof {
        lemma_pair_skip(s, p, i as int);
    }
    let ghost rest = s.skip(i as int);
    if i < set.len() {
        assert(s[i as int] == set@[i as int].deep_view());
        assert(rest[0] == s[i as int]);
    }
    if i < set.len() && set[i].0 == a && set[i].1 == b {
        assert(s.take(i as int) + rest =~= s);
    } else {
        set.insert(i, (a, b));
        assert(set.deep_view() =~= s.take(i as int) + (seq![p] + rest));
    }
}

/// Call `a` sorts before `b`: by caller, then by callee.
pub open spec fn call_less(a: ((Seq<char>, Seq<char>), (Seq<char>, Seq<char>)), b: ((Seq<char>, Seq<char>), (Seq<char>, Seq<char>))) -> bool {
    pair_less(a.0, b.0) || (a.0 == b.0 && pair_less(a.1, b.1))
}

/// `s` with call `c` added before the first call that sorts after it,
/// unless it is there already.
pub open spec fn add_call(s: Seq<((Seq<char>, Seq<char>), (Seq<char>, Seq<char>))>, c: ((Seq<char>, Seq<char>), (Seq<char>, Seq<char>))) -> Seq<((Seq<char>, Seq<char>), (Seq<char>, Seq<char>))>
    decreases s.len(),
{
    if s.len() == 0 {
        seq![c]
    } else if s[0] == c {
        s
    } else if call_less(c, s[0]) {
        seq![c] + s
    } else {
        seq![s[0]] + add_call(s.drop_first(), c)
    }
}

proof fn lemma_call_skip(s: Seq<((Seq<char>, Seq<char>), (Seq<char>, Seq<char>))>, c: ((Seq<char>, Seq<char>), (Seq<char>, Seq<char>)), i: int)
    requires
        0 <= i <= s.len(),
        forall|j: int| 0 <= j < i ==> s[j] != c && !call_less(c, #[trigger] s[j]),
    ensures
        add_call(s, c) == s.take(i) + add_call(s.skip(i), c),
    decreases i,
{
    if i == 0 {
        assert(s.skip(0) =~= s);
        assert(s.take(0) + add_call(s.skip(0), c) =~= add_call(s, c));
    } else {
        assert(s[0] != c && !call_less(c, s[0]));
        lemma_call_skip(s.drop_first(), c, i - 1);
        assert(s.drop_first().skip(i - 1) =~= s.skip(i));
        assert(seq![s[0]] + s.drop_first().take(i - 1) =~= s.take(i));
        assert(seq![s[0]] + (s.drop_first().take(i - 1) + add_call(s.skip(i), c)) =~= s.take(i) + add_call(s.skip(i), c));
    }
}

fn same_pair(a: &(String, String), b: &(String, String)) -> (r: bool)
    ensures
        r == (a.deep_view() == b.deep_view()),
{
    a.0 == b.0 && a.1 == b.1
}

/// Adds the call `c` to a set of calls.
pub fn add_call_entry(set: &mut Vec<((String, String), (String, String))>, c: ((String, String), (String, String)))
    ensures
        final(set).deep_view() == add_call(old(set).deep_view(), c.deep_view()),
{
    let ghost s = old(set).deep_view();
    let ghost cv = c.deep_view();
    let mut i: usize = 0;
    while i < set.len() && !(same_pair(&set[i].0, &c.0) && same_pair(&set[i].1, &c.1)) && !(pair_before(
        &c.0.0,
        &c.0.1,
        &set[i].0.0,
        &set[i].0.1,
    ) || (same_pair(&set[i].0, &c.0) && pair_before(&c.1.0, &c.1.1, &set[i].1.0, &set[i].1.1)))
        invariant
            i <= set@.len(),
            set.deep_view() == s,
            s.len() == set@.len(),
            cv == c.deep_view(),
            forall|j: int| 0 <= j < i ==> s[j] != cv && !call_less(cv, #[trigger] s[j]),
        decreases set@.len() - i,
    {
        assert(s[i as int] == set@[i as int].deep_view());
        i = i + 1;
    }
    proof {
        lemma_call_skip(s, cv, i as int);
    }
    let ghost rest = s.skip(i as int);
    if i < set.len() {
        assert(s[i as int] == set@[i as int].deep_view());
        assert(rest[0] == s[i as int]);
    }
    if i < set.len() && same_pair(&set[i].0, &c.0) && same_pair(&set[i].1, &c.1) {
        assert(s.take(i as int) + rest =~= s);
    } else {
        set.insert(i, c);
        assert(set.deep_view() =~= s.take(i as int) + (seq![cv] + rest));
    }
}

/// Putting an entry keeps a table's keys strictly sorted, and adds its key.
pub proof fn put_keeps_order<V>(s: Seq<(Seq<char>, V)>, k: Seq<char>, v: V)
    requires
        strictly_sorted(keys(s)),
    ensures
        strictly_sorted(keys(put(s, k, v))),
        keys(put(s, k, v)) == add_key(keys(s), k),
    decreases s.len(),
{
    let ks = keys(s);
    if s.len() == 0 {
        assert(keys(put(s, k, v)) =~= seq![k]);
        assert(add_key(ks, k) =~= seq![k]);
    } else if s[0].0 == k {
        assert(keys(put(s, k, v)) =~= ks);
        assert(ks[0] == k);
    } else if lex_less(k, s[0].0) {
        assert(keys(put(s, k, v)) =~= seq![k] + ks);
        assert(ks[0] == s[0].0);
        add_key_keeps_order(ks, k);
    } else {
        let t = s.drop_first();
        assert(keys(t) =~= ks.drop_first());
        assert(strictly_sorted(keys(t))) by {
            assert forall|i: int, j: int| 0 <= i < j < keys(t).len() implies lex_less(#[trigger] keys(t)[i], #[trigger] keys(t)[j]) by {
                assert(keys(t)[i] == ks[i + 1] && keys(t)[j] == ks[j + 1]);
            }
        }
        put_keeps_order(t, k, v);
        assert(keys(put(s, k, v)) =~= seq![s[0].0] + keys(put(t, k, v)));
        assert(ks[0] == s[0].0);
        assert(add_key(ks, k) =~= seq![ks[0]] + add_key(ks.drop_first(), k));
        add_key_keeps_order(ks, k);
    }
}

/// Adding a key keeps a set strictly sorted.
pub proof fn add_key_keeps_order(s: Seq<Seq<char>>, k: Seq<char>)
    requires
        strictly_sorted(s),
    ensures
        strictly_sorted(add_key(s, k)),
        add_key(s, k).to_set() == s.to_set().insert(k),
    decreases s.len(),
{
    if s.len() == 0 {
        assert(add_key(s, k) =~= seq![k]);
        assert(seq![k].to_set() =~= Set::<Seq<char>>::empty().insert(k)) by {
            assert(seq![k][0] == k);
        }
        assert(s.to_set() =~= Set::<Seq<char>>::empty());
    } else if s[0] == k {
        assert(s.to_set().contains(s[0]));
        assert(s.to_set().insert(k) =~= s.to_set());
    } else if lex_less(k, s[0]) {
        let r = seq![k] + s;
        assert forall|i: int, j: int| 0 <= i < j < r.len() implies lex_less(#[trigger] r[i], #[trigger] r[j]) by {
            if i == 0 {
                if j > 1 {
                    lemma_lex_transitive(k, s[0], s[j - 1]);
                }
            } else {
                assert(r[i] == s[i - 1] && r[j] == s[j - 1]);
            }
        }
        assert(r.to_set() =~= s.to_set().insert(k)) by {
            assert forall|x: Seq<char>| r.to_set().contains(x) <==> s.to_set().insert(k).contains(x) by {
                if r.to_set().contains(x) {
                    let i = choose|i: int| 0 <= i < r.len() && r[i] == x;
                    if i > 0 {
                        assert(s[i - 1] == x);
                    }
                }
                if s.to_set().contains(x) {
                    let i = choose|i: int| 0 <= i < s.len() && s[i] == x;
                    assert(r[i + 1] == x);
                }
                if x == k {
                    assert(r[0] == x);
                }
            }
        }
    } else {
        let t = s.drop_first();
        assert forall|i: int, j: int| 0 <= i < j < t.len() implies lex_less(#[trigger] t[i], #[trigger] t[j]) by {
            assert(t[i] == s[i + 1] && t[j] == s[j + 1]);
        }
        add_key_keeps_order(t, k);
        let a = add_key(t, k);
        let r = seq![s[0]] + a;
        assert(a.to_set() == t.to_set().insert(k));
        assert forall|i: int, j: int| 0 <= i < j < r.len() implies lex_less(#[trigger] r[i], #[trigger] r[j]) by {
            if i == 0 {
                assert(a.to_set().contains(a[j - 1]));
                assert(r[j] == a[j - 1]);
                if a[j - 1] == k {
                    crate::file_tree::lemma_lex_total(k, s[0]);
                } else {
                    let m = choose|m: int| 0 <= m < t.len() && t[m] == a[j - 1];
                    assert(t[m] == s[m + 1]);
                }
            } else {
                assert(r[i] == a[i - 1] && r[j] == a[j - 1]);
            }
        }
        assert(r.to_set() =~= s.to_set().insert(k)) by {
            assert forall|x: Seq<char>| r.to_set().contains(x) <==> s.to_set().insert(k).contains(x) by {
                if r.to_set().contains(x) {
                    let i = choose|i: int| 0 <= i < r.len() && r[i] == x;
                    if i > 0 {
                        assert(a.to_set().contains(x));
                        if x != k {
                            let m = choose|m: int| 0 <= m < t.len() && t[m] == x;
                            assert(s[m + 1] == x);
                        }
                    } else {
                        assert(s[0] == x);
                    }
                }
                if s.to_set().contains(x) {
                    let i = choose|i: int| 0 <= i < s.len() && s[i] == x;
                    if i == 0 {
                        assert(r[0] == x);
                    } else {
                        assert(t[i - 1] == x);
                        assert(a.to_set().contains(x));
                        let m = choose|m: int| 0 <= m < a.len() && a[m] == x;
                        assert(r[m + 1] == x);
                    }
                }
                if x == k {
                    assert(a.to_set().contains(x));
                    let m = choose|m: int| 0 <= m < a.len() && a[m] == x;
                    assert(r[m + 1] == x);
                }
            }
        }
    }
}

} // verus!
