//! The order of the branch menu: the current branch first, then the other
//! branches by their lowercase names, ties kept in the order given.
use vstd::prelude::*;
use crate::file_tree::{chars_before, lemma_lex_asymmetric, lemma_lex_transitive, lex_less};
use crate::search::{lowercase, to_lowercase};
use crate::text::chars_of;

verus! {

/// Whether branch `a` comes before branch `b`: the current branch before
/// any other, otherwise by lowercase name.
pub open spec fn branch_before(a: Seq<char>, b: Seq<char>, current: Seq<char>) -> bool {
    ||| (a == current && b != current)
    ||| ((a == current) == (b == current) && lex_less(lowercase(a), lowercase(b)))
}

/// Where `x` goes among the ordered branches `sorted` from position `k`
/// on: after every branch that `x` does not come before.
pub open spec fn branch_place(sorted: Seq<Seq<char>>, x: Seq<char>, current: Seq<char>, k: int) -> int
    decreases sorted.len() - k,
{
    if k < sorted.len() && !branch_before(x, sorted[k], current) {
        branch_place(sorted, x, current, k + 1)
    } else {
        k
    }
}

/// The branches in menu order: each placed after the ones before it that
/// it does not come before, so that equal keys keep their order.
pub open spec fn branch_order(names: Seq<Seq<char>>, current: Seq<char>) -> Seq<Seq<char>>
    decreases names.len(),
{
    if names.len() == 0 {
        Seq::empty()
    } else {
        let s = branch_order(names.drop_last(), current);
        s.insert(branch_place(s, names.last(), current, 0), names.last())
    }
}

proof fn lemma_branch_place_bounds(sorted: Seq<Seq<char>>, x: Seq<char>, current: Seq<char>, k: int)
    requires
        0 <= k <= sorted.len(),
    ensures
        k <= branch_place(sorted, x, current, k) <= sorted.len(),
    decreases sorted.len() - k,
{
    if k < sorted.len() && !branch_before(x, sorted[k], current) {
        lemma_branch_place_bounds(sorted, x, current, k + 1);
    }
}

proof fn lemma_before_transitive(a: Seq<char>, b: Seq<char>, c: Seq<char>, current: Seq<char>)
    requires
        branch_before(a, b, current),
        branch_before(b, c, current),
    ensures
        branch_before(a, c, current),
{
    if (a == current) == (b == current) && (b == current) == (c == current) {
        lemma_lex_transitive(lowercase(a), lowercase(b), lowercase(c));
    }
}

proof fn lemma_before_asymmetric(a: Seq<char>, b: Seq<char>, current: Seq<char>)
    requires
        branch_before(a, b, current),
    ensures
        !branch_before(b, a, current),
{
    if (a == current) == (b == current) {
        lemma_lex_asymmetric(lowercase(a), lowercase(b));
    }
}

proof fn lemma_branch_place_split(sorted: Seq<Seq<char>>, x: Seq<char>, current: Seq<char>, k: int)
    requires
        0 <= k <= sorted.len(),
        forall|t: int| 0 <= t < k ==> !branch_before(x, #[trigger] sorted[t], current),
    ensures
        forall|t: int| 0 <= t < branch_place(sorted, x, current, k) ==> !branch_before(x, #[trigger] sorted[t], current),
        branch_place(sorted, x, current, k) < sorted.len() ==> branch_before(x, sorted[branch_place(sorted, x, current, k)], current),
    decreases sorted.len() - k,
{
    if k < sorted.len() && !branch_before(x, sorted[k], current) {
        lemma_branch_place_split(sorted, x, current, k + 1);
    }
}

/// The menu order is an order: no branch comes before one listed ahead of
/// it, and the menu holds exactly the given branches, each as often.
pub proof fn branch_order_orders_and_keeps_branches(names: Seq<Seq<char>>, current: Seq<char>)
    ensures
        forall|i: int, j: int|
            0 <= i < j < branch_order(names, current).len() ==> !branch_before(
                #[trigger] branch_order(names, current)[j],
                #[trigger] branch_order(names, current)[i],
                current,
            ),
        branch_order(names, current).to_multiset() == names.to_multiset(),
    decreases names.len(),
{
    if names.len() == 0 {
        assert(names =~= Seq::<Seq<char>>::empty());
    } else {
        let init = names.drop_last();
        let x = names.last();
        branch_order_orders_and_keeps_branches(init, current);
        let s = branch_order(init, current);
        let p = branch_place(s, x, current, 0);
        lemma_branch_place_bounds(s, x, current, 0);
        lemma_branch_place_split(s, x, current, 0);
        let r = s.insert(p, x);
        assert(r == branch_order(names, current));
        assert forall|i: int, j: int| 0 <= i < j < r.len() implies !branch_before(#[trigger] r[j], #[trigger] r[i], current) by {
            if j < p {
                assert(r[i] == s[i] && r[j] == s[j]);
            } else if j == p {
                assert(r[i] == s[i]);
            } else if i == p {
                assert(r[j] == s[j - 1]);
                assert(branch_before(x, s[p], current));
                if j - 1 == p {
                    lemma_before_asymmetric(x, s[p], current);
                } else {
                    assert(!branch_before(s[j - 1], s[p], current));
                    if branch_before(s[j - 1], x, current) {
                        lemma_before_transitive(s[j - 1], x, s[p], current);
                    }
                }
            } else if i < p {
                assert(r[i] == s[i] && r[j] == s[j - 1]);
            } else {
                assert(r[i] == s[i - 1] && r[j] == s[j - 1]);
            }
        }
        vstd::seq_lib::to_multiset_insert(s, p, x);
        vstd::seq_lib::to_multiset_build(init, x);
        assert(init.push(x) =~= names);
    }
}

/// The branch names in menu order: the current branch first, then by
/// lowercase name (`str::to_lowercase`), branches with equal keys in the
/// order given.
pub fn order_branches(names: Vec<String>, current: &str) -> (r: Vec<String>)
    ensures
        r.deep_view() == branch_order(names.deep_view(), current@),
{
    let ghost nv = names.deep_view();
    let mut out: Vec<String> = Vec::new();
    let mut lowered: Vec<Vec<char>> = Vec::new();
    let mut i: usize = 0;
    assert(nv.take(0) =~= Seq::<Seq<char>>::empty());
    assert(out.deep_view() =~= Seq::<Seq<char>>::empty());
    while i < names.len()
        invariant
            i <= names@.len(),
            nv == names.deep_view(),
            out.deep_view() == branch_order(nv.take(i as int), current@),
            lowered@.len() == out@.len(),
            forall|k: int| 0 <= k < out@.len() ==> #[trigger] lowered@[k]@ == lowercase(out@[k]@),
        decreases names@.len() - i,
    {
        let name = &names[i];
        let low = chars_of(to_lowercase(name.as_str()).as_str());
        let is_current = crate::resolve::str_is(name.as_str(), current);
        let ghost s = out.deep_view();
        let ghost x = name@;
        assert(x == nv[i as int]);
        let mut k: usize = 0;
        while k < out.len()
            invariant
                k <= out@.len(),
                s == out.deep_view(),
                lowered@.len() == out@.len(),
                forall|t: int| 0 <= t < out@.len() ==> #[trigger] lowered@[t]@ == lowercase(out@[t]@),
                low@ == lowercase(x),
                is_current == (x == current@),
                branch_place(s, x, current@, 0) == branch_place(s, x, current@, k as int),
            ensures
                k == out@.len() || branch_before(x, s[k as int], current@),
            decreases out@.len() - k,
        {
            let other_current = crate::resolve::str_is(out[k].as_str(), current);
            assert(s[k as int] == out@[k as int]@);
            let before = (is_current && !other_current) || (is_current == other_current && chars_before(&low, &lowered[k]));
            assert(before == branch_before(x, s[k as int], current@));
            if before {
                break;
            }
            k = k + 1;
        }
        proof {
            lemma_branch_place_bounds(s, x, current@, k as int);
            assert(branch_place(s, x, current@, k as int) == k);
            assert(nv.take(i + 1).drop_last() =~= nv.take(i as int));
            assert(nv.take(i + 1).last() == x);
        }
        let ghost lowered0 = lowered@;
        let ghost out0 = out@;
        out.insert(k, name.clone());
        lowered.insert(k, low);
        assert(out.deep_view() =~= s.insert(k as int, x));
        assert forall|t: int| 0 <= t < out@.len() implies #[trigger] lowered@[t]@ == lowercase(out@[t]@) by {
            if t < k {
                assert(lowered@[t] == lowered0[t] && out@[t] == out0[t]);
            } else if t > k {
                assert(lowered@[t] == lowered0[t - 1] && out@[t] == out0[t - 1]);
            }
        }
        i = i + 1;
    }
    assert(nv.take(i as int) =~= nv);
    out
}

} // verus!
