//! The sidebar's file tree: changed paths grouped by directory, directories
//! in name order before the files they hold, optionally with unbranched
//! directory chains shown as one entry.
use vstd::prelude::*;
use crate::layout::FileTreeEntry;
use crate::text::{chars_of, push_char, split_chars, split_on};

verus! {

/// `a` sorts before `b` character by character, a proper prefix first.
/// On UTF-8 text this is the byte order that `String` sorts by.
pub open spec fn lex_less(a: Seq<char>, b: Seq<char>) -> bool
    decreases a.len(),
{
    if a.len() == 0 {
        b.len() > 0
    } else if b.len() == 0 {
        false
    } else if a[0] != b[0] {
        (a[0] as int) < (b[0] as int)
    } else {
        lex_less(a.drop_first(), b.drop_first())
    }
}

/// Each name sorts strictly before the ones after it.
pub open spec fn strictly_sorted(s: Seq<Seq<char>>) -> bool {
    forall|i: int, j: int| 0 <= i < j < s.len() ==> lex_less(#[trigger] s[i], #[trigger] s[j])
}

pub(crate) proof fn lemma_lex_irreflexive(a: Seq<char>)
    ensures
        !lex_less(a, a),
    decreases a.len(),
{
    if a.len() > 0 {
        lemma_lex_irreflexive(a.drop_first());
    }
}

pub(crate) proof fn lemma_lex_transitive(a: Seq<char>, b: Seq<char>, c: Seq<char>)
    requires
        lex_less(a, b),
        lex_less(b, c),
    ensures
        lex_less(a, c),
    decreases a.len(),
{
    if a.len() > 0 && b.len() > 0 && c.len() > 0 && a[0] == b[0] && b[0] == c[0] {
        lemma_lex_transitive(a.drop_first(), b.drop_first(), c.drop_first());
    }
}

pub(crate) proof fn lemma_lex_total(a: Seq<char>, b: Seq<char>)
    ensures
        a == b || lex_less(a, b) || lex_less(b, a),
    decreases a.len(),
{
    if a.len() > 0 && b.len() > 0 && a[0] == b[0] {
        lemma_lex_total(a.drop_first(), b.drop_first());
        if a.drop_first() == b.drop_first() {
            assert(a =~= seq![a[0]] + a.drop_first());
            assert(b =~= seq![b[0]] + b.drop_first());
        }
    } else if a.len() > 0 && b.len() > 0 {
        assert((a[0] as int) != (b[0] as int));
    } else if a.len() == 0 && b.len() == 0 {
        assert(a =~= b);
    }
}

pub(crate) proof fn lemma_lex_asymmetric(a: Seq<char>, b: Seq<char>)
    requires
        lex_less(a, b),
    ensures
        !lex_less(b, a),
{
    if lex_less(b, a) {
        lemma_lex_transitive(a, b, a);
        lemma_lex_irreflexive(a);
    }
}

/// The name order is a strict total order: no name sorts before itself,
/// it is transitive, and of two different names one sorts first.
pub proof fn name_order_is_strict_total(a: Seq<char>, b: Seq<char>, c: Seq<char>)
    ensures
        !lex_less(a, a),
        lex_less(a, b) && lex_less(b, c) ==> lex_less(a, c),
        a != b ==> lex_less(a, b) || lex_less(b, a),
        lex_less(a, b) ==> !lex_less(b, a),
{
    lemma_lex_irreflexive(a);
    if lex_less(a, b) && lex_less(b, c) {
        lemma_lex_transitive(a, b, c);
    }
    lemma_lex_total(a, b);
    if lex_less(a, b) {
        lemma_lex_asymmetric(a, b);
    }
}

/// Two strictly sorted sequences with the same names are the same.
pub(crate) proof fn lemma_sorted_unique(s1: Seq<Seq<char>>, s2: Seq<Seq<char>>)
    requires
        strictly_sorted(s1),
        strictly_sorted(s2),
        forall|x: Seq<char>| s1.contains(x) <==> s2.contains(x),
    ensures
        s1 == s2,
    decreases s1.len(),
{
    if s1.len() == 0 {
        if s2.len() > 0 {
            assert(s2.contains(s2[0]));
        }
        assert(s1 =~= s2);
    } else {
        assert(s1.contains(s1[0]));
        assert(s2.len() > 0);
        assert(s2.contains(s2[0]));
        let j = choose|j: int| 0 <= j < s1.len() && s1[j] == s2[0];
        let k = choose|k: int| 0 <= k < s2.len() && s2[k] == s1[0];
        if j > 0 && k > 0 {
            assert(lex_less(s1[0], s1[j]));
            assert(lex_less(s2[0], s2[k]));
            lemma_lex_asymmetric(s1[0], s2[0]);
        }
        assert(s1[0] == s2[0]);
        let t1 = s1.drop_first();
        let t2 = s2.drop_first();
        assert forall|x: Seq<char>| t1.contains(x) implies t2.contains(x) by {
            let a = choose|a: int| 0 <= a < t1.len() && t1[a] == x;
            assert(s1[a + 1] == x);
            assert(lex_less(s1[0], x));
            lemma_lex_irreflexive(x);
            assert(s2.contains(x));
            let b = choose|b: int| 0 <= b < s2.len() && s2[b] == x;
            assert(b != 0);
            assert(t2[b - 1] == x);
        }
        assert forall|x: Seq<char>| t2.contains(x) implies t1.contains(x) by {
            let a = choose|a: int| 0 <= a < t2.len() && t2[a] == x;
            assert(s2[a + 1] == x);
            assert(lex_less(s2[0], x));
            lemma_lex_irreflexive(x);
            assert(s1.contains(x));
            let b = choose|b: int| 0 <= b < s1.len() && s1[b] == x;
            assert(b != 0);
            assert(t1[b - 1] == x);
        }
        assert(strictly_sorted(t1)) by {
            assert forall|a: int, b: int| 0 <= a < b < t1.len() implies lex_less(#[trigger] t1[a], #[trigger] t1[b]) by {
                assert(t1[a] == s1[a + 1] && t1[b] == s1[b + 1]);
            }
        }
        assert(strictly_sorted(t2)) by {
            assert forall|a: int, b: int| 0 <= a < b < t2.len() implies lex_less(#[trigger] t2[a], #[trigger] t2[b]) by {
                assert(t2[a] == s2[a + 1] && t2[b] == s2[b + 1]);
            }
        }
        lemma_sorted_unique(t1, t2);
        assert(s1 =~= seq![s1[0]] + t1);
        assert(s2 =~= seq![s2[0]] + t2);
    }
}

/// Whether `a` sorts before `b`.
pub(crate) fn chars_before(a: &Vec<char>, b: &Vec<char>) -> (r: bool)
    ensures
        r == lex_less(a@, b@),
{
    let mut i: usize = 0;
    assert(a@.skip(0) =~= a@);
    assert(b@.skip(0) =~= b@);
    while i < a.len() && i < b.len()
        invariant
            i <= a@.len(),
            i <= b@.len(),
            lex_less(a@.skip(i as int), b@.skip(i as int)) == lex_less(a@, b@),
        decreases a@.len() - i,
    {
        assert(a@.skip(i as int)[0] == a@[i as int]);
        assert(b@.skip(i as int)[0] == b@[i as int]);
        if a[i] != b[i] {
            return a[i] < b[i];
        }
        assert(a@.skip(i as int).drop_first() =~= a@.skip(i + 1));
        assert(b@.skip(i as int).drop_first() =~= b@.skip(i + 1));
        i = i + 1;
    }
    i < b.len()
}

/// Whether two character vectors hold the same text.
pub(crate) fn same_chars(a: &Vec<char>, b: &Vec<char>) -> (r: bool)
    ensures
        r == (a@ == b@),
{
    if a.len() != b.len() {
        return false;
    }
    let mut i: usize = 0;
    while i < a.len()
        invariant
            a@.len() == b@.len(),
            i <= a@.len(),
            forall|k: int| 0 <= k < i ==> a@[k] == b@[k],
        decreases a@.len() - i,
    {
        if a[i] != b[i] {
            return false;
        }
        i = i + 1;
    }
    assert(a@ =~= b@);
    true
}

/// The texts of a list of names.
pub open spec fn name_views(names: Seq<Vec<char>>) -> Seq<Seq<char>> {
    names.map_values(|n: Vec<char>| n@)
}

/// Adds `c` to a strictly sorted list of names, where it is not already.
pub(crate) fn insert_name(names: &mut Vec<Vec<char>>, c: Vec<char>)
    requires
        strictly_sorted(name_views(old(names)@)),
    ensures
        strictly_sorted(name_views(final(names)@)),
        forall|x: Seq<char>| name_views(final(names)@).contains(x) <==> (name_views(old(names)@).contains(x) || x == c@),
{
    let ghost before = name_views(names@);
    let mut p: usize = 0;
    while p < names.len() && chars_before(&names[p], &c)
        invariant
            p <= names@.len(),
            before == name_views(names@),
            forall|k: int| 0 <= k < p ==> lex_less(#[trigger] before[k], c@),
        decreases names@.len() - p,
    {
        p = p + 1;
    }
    if p < names.len() && same_chars(&names[p], &c) {
        assert(before[p as int] == c@);
        return;
    }
    proof {
        if p < before.len() {
            lemma_lex_total(before[p as int], c@);
        }
    }
    let ghost cv = c@;
    names.insert(p, c);
    let ghost after = name_views(names@);
    assert(after =~= before.insert(p as int, cv));
    assert forall|i: int, j: int| 0 <= i < j < after.len() implies lex_less(#[trigger] after[i], #[trigger] after[j]) by {
        if j < p {
        } else if j == p {
        } else if i < p {
            assert(lex_less(before[i], cv));
            assert(after[j] == before[j - 1]);
            if j - 1 > p {
                assert(lex_less(before[p as int], before[j - 1]));
                lemma_lex_transitive(cv, before[p as int], before[j - 1]);
            }
            lemma_lex_transitive(before[i], cv, before[j - 1]);
        } else if i == p {
            if j - 1 > p {
                assert(lex_less(before[p as int], before[j - 1]));
                lemma_lex_transitive(cv, before[p as int], before[j - 1]);
            }
        } else {
            assert(after[i] == before[i - 1] && after[j] == before[j - 1]);
        }
    }
    assert forall|x: Seq<char>| after.contains(x) <==> (before.contains(x) || x == cv) by {
        if after.contains(x) {
            let a = choose|a: int| 0 <= a < after.len() && after[a] == x;
            if a < p {
                assert(before[a] == x);
            } else if a > p {
                assert(before[a - 1] == x);
            }
        }
        if before.contains(x) {
            let a = choose|a: int| 0 <= a < before.len() && before[a] == x;
            if a < p {
                assert(after[a] == x);
            } else {
                assert(after[a + 1] == x);
            }
        }
        if x == cv {
            assert(after[p as int] == x);
        }
    }
}


/// A path cut at `/`, the way `str::split` cuts it.
pub type Parts = Seq<Seq<char>>;

/// Whether the components of `p` start with those of `dir`.
pub open spec fn begins_with(p: Parts, dir: Parts) -> bool {
    dir.len() <= p.len() && forall|j: int| 0 <= j < dir.len() ==> p[j] == dir[j]
}

/// Whether the path `p` lies under the directory `dir` inside its
/// subdirectory `c`.
pub open spec fn holds_dir(p: Parts, dir: Parts, c: Seq<char>) -> bool {
    p.len() > dir.len() + 1 && begins_with(p, dir) && p[dir.len() as int] == c
}

/// Whether the path `p` is a file directly inside `dir`.
pub open spec fn holds_file(p: Parts, dir: Parts) -> bool {
    p.len() == dir.len() + 1 && begins_with(p, dir)
}

/// Whether some path has `c` as a subdirectory of `dir`.
pub open spec fn is_child_dir(all: Seq<Parts>, dir: Parts, c: Seq<char>) -> bool {
    exists|i: int| 0 <= i < all.len() && #[trigger] holds_dir(all[i], dir, c)
}

/// Whether `s` lists the subdirectories of `dir`, in name order.
pub open spec fn lists_children(all: Seq<Parts>, dir: Parts, s: Seq<Seq<char>>) -> bool {
    strictly_sorted(s) && forall|c: Seq<char>| s.contains(c) <==> is_child_dir(all, dir, c)
}

/// The subdirectories of `dir`, in name order.
pub open spec fn child_names(all: Seq<Parts>, dir: Parts) -> Seq<Seq<char>> {
    choose|s: Seq<Seq<char>>| lists_children(all, dir, s)
}

/// The indices among the first `n` paths of the files directly in `dir`.
pub open spec fn files_at(all: Seq<Parts>, dir: Parts, n: int) -> Seq<int>
    decreases n,
{
    if n <= 0 {
        Seq::empty()
    } else if holds_file(all[n - 1], dir) {
        files_at(all, dir, n - 1).push(n - 1)
    } else {
        files_at(all, dir, n - 1)
    }
}

/// The largest number of components of a path.
pub open spec fn longest(all: Seq<Parts>) -> int
    decreases all.len(),
{
    if all.len() == 0 {
        0
    } else if all.last().len() > longest(all.drop_last()) {
        all.last().len() as int
    } else {
        longest(all.drop_last())
    }
}

proof fn lemma_longest(all: Seq<Parts>, i: int)
    requires
        0 <= i < all.len(),
    ensures
        all[i].len() <= longest(all),
    decreases all.len(),
{
    if i < all.len() - 1 {
        lemma_longest(all.drop_last(), i);
    }
}

proof fn lemma_child_names(all: Seq<Parts>, dir: Parts, s: Seq<Seq<char>>)
    requires
        lists_children(all, dir, s),
    ensures
        child_names(all, dir) == s,
{
    let t = child_names(all, dir);
    assert(lists_children(all, dir, t));
    lemma_sorted_unique(t, s);
}

/// A row of the tree as values.
pub enum TreeRow {
    Dir { name: Seq<char>, path: Seq<char>, depth: int, collapsed: bool },
    File { index: int, depth: int },
}

pub open spec fn row_view(e: FileTreeEntry) -> TreeRow {
    match e {
        FileTreeEntry::Directory { name, path, depth, collapsed } => TreeRow::Dir {
            name: name@,
            path: path@,
            depth: depth as int,
            collapsed,
        },
        FileTreeEntry::File { index, depth } => TreeRow::File { index: index as int, depth: depth as int },
    }
}

pub open spec fn row_views(es: Seq<FileTreeEntry>) -> Seq<TreeRow> {
    es.map_values(|e: FileTreeEntry| row_view(e))
}

/// The texts of a list of strings.
pub open spec fn texts(v: Seq<String>) -> Seq<Seq<char>> {
    v.map_values(|s: String| s@)
}

/// The directory `d`, reached by `path` and shown as `name`, extended down
/// its chain of single subdirectories while compacting is on, the chain is
/// not collapsed and holds no file.
pub open spec fn compacted(
    all: Seq<Parts>,
    d: Parts,
    path: Seq<char>,
    name: Seq<char>,
    collapsed: Seq<Seq<char>>,
    compact: bool,
) -> (Parts, Seq<char>, Seq<char>)
    decreases longest(all) - d.len(),
{
    if compact && !collapsed.contains(path) && files_at(all, d, all.len() as int).len() == 0
        && child_names(all, d).len() == 1 && d.len() < longest(all) {
        let c = child_names(all, d)[0];
        compacted(all, d.push(c), path + seq!['/'] + c, name + seq!['/'] + c, collapsed, compact)
    } else {
        (d, path, name)
    }
}

/// The path of subdirectory `c` of the directory at `parent`.
pub open spec fn first_path(parent: Seq<char>, c: Seq<char>) -> Seq<char> {
    if parent.len() == 0 {
        c
    } else {
        parent + seq!['/'] + c
    }
}

pub open spec fn file_rows(files: Seq<int>, depth: int) -> Seq<TreeRow> {
    files.map_values(|i: int| TreeRow::File { index: i, depth })
}

/// The rows of directory `dir`, reached by `path`, at `depth`: each
/// subdirectory in name order with its own rows when it is open, then the
/// files directly inside in the order of their indices.
pub open spec fn tree_rows(
    all: Seq<Parts>,
    dir: Parts,
    path: Seq<char>,
    depth: int,
    collapsed: Seq<Seq<char>>,
    compact: bool,
) -> Seq<TreeRow>
    decreases longest(all) - dir.len(), child_names(all, dir).len() + 1,
{
    kid_rows(all, dir, path, depth, collapsed, compact, 0) + file_rows(files_at(all, dir, all.len() as int), depth)
}

/// The rows of the subdirectories of `dir` from the `k`th on.
pub open spec fn kid_rows(
    all: Seq<Parts>,
    dir: Parts,
    path: Seq<char>,
    depth: int,
    collapsed: Seq<Seq<char>>,
    compact: bool,
    k: int,
) -> Seq<TreeRow>
    decreases longest(all) - dir.len(), child_names(all, dir).len() - k,
{
    let kids = child_names(all, dir);
    if k < 0 || k >= kids.len() {
        Seq::empty()
    } else {
        let c = kids[k];
        let (d, p, name) = compacted(all, dir.push(c), first_path(path, c), c, collapsed, compact);
        let folded = collapsed.contains(p);
        let inner = if !folded && dir.len() < d.len() <= longest(all) {
            tree_rows(all, d, p, depth + 1, collapsed, compact)
        } else {
            Seq::empty()
        };
        seq![TreeRow::Dir { name, path: p, depth, collapsed: folded }] + inner + kid_rows(
            all,
            dir,
            path,
            depth,
            collapsed,
            compact,
            k + 1,
        )
    }
}

/// The paths cut into components.
pub open spec fn split_paths(paths: Seq<String>) -> Seq<Parts> {
    paths.map_values(|p: String| split_on(p@, '/'))
}

pub open spec fn parts_of(all: Seq<Vec<Vec<char>>>) -> Seq<Parts> {
    all.map_values(|p: Vec<Vec<char>>| name_views(p@))
}

/// A copy of a character vector.
fn copy_chars(v: &Vec<char>) -> (r: Vec<char>)
    ensures
        r@ == v@,
{
    let mut r: Vec<char> = Vec::new();
    let mut i: usize = 0;
    while i < v.len()
        invariant
            i <= v@.len(),
            r@ == v@.take(i as int),
        decreases v@.len() - i,
    {
        r.push(v[i]);
        assert(v@.take(i + 1) =~= v@.take(i as int).push(v@[i as int]));
        i = i + 1;
    }
    assert(v@.take(v@.len() as int) =~= v@);
    r
}

/// Appends the characters of `v` to `s`.
fn append_chars(s: &mut String, v: &Vec<char>)
    ensures
        final(s)@ == old(s)@ + v@,
{
    let mut i: usize = 0;
    while i < v.len()
        invariant
            i <= v@.len(),
            s@ == old(s)@ + v@.take(i as int),
        decreases v@.len() - i,
    {
        push_char(s, v[i]);
        assert(v@.take(i + 1) =~= v@.take(i as int).push(v@[i as int]));
        i = i + 1;
    }
    assert(v@.take(v@.len() as int) =~= v@);
}

/// Whether the components of `p` start with those of `dir`.
fn begins_with_parts(p: &Vec<Vec<char>>, dir: &Vec<Vec<char>>) -> (b: bool)
    ensures
        b == begins_with(name_views(p@), name_views(dir@)),
{
    if dir.len() > p.len() {
        return false;
    }
    let mut j: usize = 0;
    while j < dir.len()
        invariant
            dir@.len() <= p@.len(),
            j <= dir@.len(),
            forall|t: int| 0 <= t < j ==> name_views(p@)[t] == name_views(dir@)[t],
        decreases dir@.len() - j,
    {
        if !same_chars(&p[j], &dir[j]) {
            assert(name_views(p@)[j as int] != name_views(dir@)[j as int]);
            return false;
        }
        j = j + 1;
    }
    true
}

/// The subdirectories of `dir`, in name order.
fn child_list(all: &Vec<Vec<Vec<char>>>, dir: &Vec<Vec<char>>) -> (v: Vec<Vec<char>>)
    ensures
        lists_children(parts_of(all@), name_views(dir@), name_views(v@)),
{
    let ghost allv = parts_of(all@);
    let ghost dv = name_views(dir@);
    let mut v: Vec<Vec<char>> = Vec::new();
    let mut i: usize = 0;
    assert(name_views(v@) =~= Seq::<Seq<char>>::empty());
    while i < all.len()
        invariant
            i <= all@.len(),
            allv == parts_of(all@),
            dv == name_views(dir@),
            strictly_sorted(name_views(v@)),
            forall|c: Seq<char>| name_views(v@).contains(c) <==> exists|t: int| 0 <= t < i && #[trigger] holds_dir(allv[t], dv, c),
        decreases all@.len() - i,
    {
        let p = &all[i];
        assert(allv[i as int] == name_views(p@));
        if p.len() > dir.len() && p.len() - dir.len() > 1 && begins_with_parts(p, dir) {
            let c = copy_chars(&p[dir.len()]);
            let ghost cv = c@;
            let ghost old_names = name_views(v@);
            insert_name(&mut v, c);
            assert(holds_dir(allv[i as int], dv, cv));
            assert forall|x: Seq<char>| name_views(v@).contains(x) <==> exists|t: int| 0 <= t < i + 1 && #[trigger] holds_dir(allv[t], dv, x) by {
                if exists|t: int| 0 <= t < i + 1 && #[trigger] holds_dir(allv[t], dv, x) {
                    let t = choose|t: int| 0 <= t < i + 1 && #[trigger] holds_dir(allv[t], dv, x);
                    if t == i {
                        assert(x == cv);
                    }
                }
            }
        } else {
            assert forall|x: Seq<char>| name_views(v@).contains(x) <==> exists|t: int| 0 <= t < i + 1 && #[trigger] holds_dir(allv[t], dv, x) by {
                if exists|t: int| 0 <= t < i + 1 && #[trigger] holds_dir(allv[t], dv, x) {
                    let t = choose|t: int| 0 <= t < i + 1 && #[trigger] holds_dir(allv[t], dv, x);
                    assert(t != i);
                }
            }
        }
        i = i + 1;
    }
    v
}

/// Whether some path is a file directly inside `dir`.
fn has_files(all: &Vec<Vec<Vec<char>>>, dir: &Vec<Vec<char>>) -> (b: bool)
    ensures
        b == (files_at(parts_of(all@), name_views(dir@), all@.len() as int).len() > 0),
{
    let ghost allv = parts_of(all@);
    let ghost dv = name_views(dir@);
    let mut i: usize = 0;
    while i < all.len()
        invariant
            i <= all@.len(),
            allv == parts_of(all@),
            dv == name_views(dir@),
            files_at(allv, dv, i as int).len() == 0,
        decreases all@.len() - i,
    {
        let p = &all[i];
        assert(allv[i as int] == name_views(p@));
        if p.len() > dir.len() && p.len() - dir.len() == 1 && begins_with_parts(p, dir) {
            proof {
                lemma_files_grow(allv, dv, i + 1, all@.len() as int);
            }
            return true;
        }
        i = i + 1;
    }
    false
}

proof fn lemma_files_grow(all: Seq<Parts>, dir: Parts, m: int, n: int)
    requires
        0 <= m <= n,
    ensures
        files_at(all, dir, m).len() <= files_at(all, dir, n).len(),
    decreases n - m,
{
    if m < n {
        lemma_files_grow(all, dir, m, n - 1);
    }
}

/// Whether `p` is among the strings of `list`.
fn is_listed(list: &[String], p: &String) -> (b: bool)
    ensures
        b == texts(list@).contains(p@),
{
    let mut i: usize = 0;
    while i < list.len()
        invariant
            i <= list@.len(),
            forall|t: int| 0 <= t < i ==> texts(list@)[t] != p@,
        decreases list@.len() - i,
    {
        if list[i] == *p {
            assert(texts(list@)[i as int] == p@);
            return true;
        }
        i = i + 1;
    }
    false
}

/// Extends the directory `d` down its chain of single subdirectories, as
/// `compacted` describes, updating its path and displayed name.
fn compact_chain(
    all: &Vec<Vec<Vec<char>>>,
    d: &mut Vec<Vec<char>>,
    path: &mut String,
    name: &mut String,
    collapsed: &[String],
    compact: bool,
)
    requires
        name_views(old(d)@).len() < longest(parts_of(all@)),
    ensures
        (name_views(final(d)@), final(path)@, final(name)@) == compacted(
            parts_of(all@),
            name_views(old(d)@),
            old(path)@,
            old(name)@,
            texts(collapsed@),
            compact,
        ),
        old(d)@.len() <= final(d)@.len() < longest(parts_of(all@)),
{
    let ghost allv = parts_of(all@);
    let ghost cv = texts(collapsed@);
    let ghost goal = compacted(allv, name_views(d@), path@, name@, cv, compact);
    loop
        invariant
            allv == parts_of(all@),
            cv == texts(collapsed@),
            old(d)@.len() <= d@.len() < longest(allv),
            compacted(allv, name_views(d@), path@, name@, cv, compact) == goal,
        ensures
            (name_views(d@), path@, name@) == goal,
            old(d)@.len() <= d@.len() < longest(allv),
        decreases longest(allv) - d@.len(),
    {
        if !compact || is_listed(collapsed, path) || has_files(all, d) {
            break;
        }
        let sub = child_list(all, d);
        if sub.len() != 1 {
            proof {
                lemma_child_names(allv, name_views(d@), name_views(sub@));
            }
            break;
        }
        let ghost dv = name_views(d@);
        let c = copy_chars(&sub[0]);
        proof {
            lemma_child_names(allv, dv, name_views(sub@));
            assert(name_views(sub@)[0] == c@);
            assert(name_views(sub@).contains(c@));
            let t = choose|t: int| 0 <= t < allv.len() && #[trigger] holds_dir(allv[t], dv, c@);
            lemma_longest(allv, t);
        }
        let ghost p0 = path@;
        let ghost n0 = name@;
        push_char(path, '/');
        append_chars(path, &c);
        push_char(name, '/');
        append_chars(name, &c);
        let ghost cv2 = c@;
        d.push(c);
        assert(name_views(d@) =~= dv.push(cv2));
        assert(path@ =~= p0 + seq!['/'] + cv2);
        assert(name@ =~= n0 + seq!['/'] + cv2);
        assert(compacted(allv, dv, p0, n0, cv, compact) == compacted(allv, dv.push(cv2), p0 + seq!['/'] + cv2, n0 + seq!['/'] + cv2, cv, compact));
    }
}

/// Appends the rows of the directory `dir`, reached by `path`, at `depth`.
fn append_entries(
    all: &Vec<Vec<Vec<char>>>,
    dir: &Vec<Vec<char>>,
    path: &String,
    depth: usize,
    collapsed: &[String],
    compact: bool,
    entries: &mut Vec<FileTreeEntry>,
)
    requires
        depth <= dir@.len(),
        dir@.len() <= longest(parts_of(all@)),
    ensures
        row_views(final(entries)@) == row_views(old(entries)@) + tree_rows(
            parts_of(all@),
            name_views(dir@),
            path@,
            depth as int,
            texts(collapsed@),
            compact,
        ),
    decreases longest(parts_of(all@)) - dir@.len(),
{
    let ghost allv = parts_of(all@);
    let ghost cv = texts(collapsed@);
    let ghost dv = name_views(dir@);
    let ghost base = row_views(entries@);
    let kids = child_list(all, dir);
    proof {
        lemma_child_names(allv, dv, name_views(kids@));
    }
    let ghost kv = name_views(kids@);
    let path_chars = chars_of(path.as_str());
    let mut k: usize = 0;
    while k < kids.len()
        invariant
            k <= kids@.len(),
            allv == parts_of(all@),
            cv == texts(collapsed@),
            dv == name_views(dir@),
            kv == name_views(kids@),
            child_names(allv, dv) == kv,
            lists_children(allv, dv, kv),
            path_chars@ == path@,
            depth <= dir@.len(),
            dir@.len() <= longest(allv),
            base + kid_rows(allv, dv, path@, depth as int, cv, compact, 0) == row_views(entries@) + kid_rows(
                allv,
                dv,
                path@,
                depth as int,
                cv,
                compact,
                k as int,
            ),
        decreases kids@.len() - k,
    {
        let c = copy_chars(&kids[k]);
        let ghost cv0 = c@;
        proof {
            assert(kv[k as int] == cv0);
            assert(kv.contains(cv0));
            let t = choose|t: int| 0 <= t < allv.len() && #[trigger] holds_dir(allv[t], dv, cv0);
            lemma_longest(allv, t);
        }
        let mut p = String::new();
        if path_chars.len() > 0 {
            p = path.clone();
            push_char(&mut p, '/');
        }
        append_chars(&mut p, &c);
        assert(p@ =~= first_path(path@, cv0));
        let mut name = String::new();
        append_chars(&mut name, &c);
        assert(name@ =~= cv0);
        let mut d = Vec::new();
        let mut j: usize = 0;
        while j < dir.len()
            invariant
                j <= dir@.len(),
                name_views(d@) == dv.take(j as int),
                dv == name_views(dir@),
            decreases dir@.len() - j,
        {
            let ghost d0 = name_views(d@);
            let cj = copy_chars(&dir[j]);
            let ghost cjv = cj@;
            d.push(cj);
            assert(cjv == dv[j as int]);
            assert(name_views(d@) =~= d0.push(cjv));
            assert(name_views(d@) =~= dv.take(j + 1));
            j = j + 1;
        }
        assert(dv.take(dv.len() as int) =~= dv);
        d.push(c);
        assert(name_views(d@) =~= dv.push(cv0));
        let ghost start = name_views(d@);
        let ghost p1 = p@;
        let ghost n1 = name@;
        compact_chain(all, &mut d, &mut p, &mut name, collapsed, compact);
        let ghost dd = name_views(d@);
        let dlen = d.len();
        assert(dir@.len() < dlen);
        assert((dd, p@, name@) == compacted(allv, dv.push(cv0), first_path(path@, cv0), cv0, cv, compact));
        let folded = is_listed(collapsed, &p);
        let ghost before = row_views(entries@);
        entries.push(FileTreeEntry::Directory { name, path: p.clone(), depth, collapsed: folded });
        let ghost row = TreeRow::Dir { name: n1, path: p@, depth: depth as int, collapsed: folded };
        assert(row_views(entries@) =~= before.push(row_views(entries@).last()));
        let ghost mid = row_views(entries@);
        if !folded {
            append_entries(all, &d, &p, depth + 1, collapsed, compact, entries);
        }
        let ghost inner = if !folded && dv.len() < dd.len() <= longest(allv) {
            tree_rows(allv, dd, p@, depth + 1, cv, compact)
        } else {
            Seq::<TreeRow>::empty()
        };
        assert(row_views(entries@) =~= mid + inner);
        let ghost rest = kid_rows(allv, dv, path@, depth as int, cv, compact, k + 1);
        assert(kid_rows(allv, dv, path@, depth as int, cv, compact, k as int) == seq![mid.last()] + inner + rest);
        assert(before + kid_rows(allv, dv, path@, depth as int, cv, compact, k as int) =~= row_views(entries@) + rest);
        k = k + 1;
    }
    let ghost after_kids = row_views(entries@);
    assert(kid_rows(allv, dv, path@, depth as int, cv, compact, k as int) =~= Seq::<TreeRow>::empty());
    let mut i: usize = 0;
    while i < all.len()
        invariant
            i <= all@.len(),
            allv == parts_of(all@),
            dv == name_views(dir@),
            row_views(entries@) == after_kids + file_rows(files_at(allv, dv, i as int), depth as int),
        decreases all@.len() - i,
    {
        let p = &all[i];
        assert(allv[i as int] == name_views(p@));
        let ghost before = row_views(entries@);
        if p.len() > dir.len() && p.len() - dir.len() == 1 && begins_with_parts(p, dir) {
            entries.push(FileTreeEntry::File { index: i, depth });
            assert(row_views(entries@) =~= before.push(TreeRow::File { index: i as int, depth: depth as int }));
            assert(file_rows(files_at(allv, dv, i + 1), depth as int) =~= file_rows(files_at(allv, dv, i as int), depth as int).push(
                TreeRow::File { index: i as int, depth: depth as int },
            ));
        }
        i = i + 1;
    }
}

/// The sidebar's file tree for `paths`: the directories of each level in
/// name order, each followed by its contents unless its path is listed as
/// collapsed, then the files of that level in path order. With
/// `compact_directories`, a directory that holds no file and a single
/// subdirectory is shown joined with it, `a/b`, down to the first directory
/// that branches, holds a file or is collapsed.
pub fn build_file_tree_entries(
    paths: &[String],
    collapsed_directories: &[String],
    compact_directories: bool,
) -> (entries: Vec<FileTreeEntry>)
    ensures
        row_views(entries@) == tree_rows(
            split_paths(paths@),
            Seq::empty(),
            Seq::empty(),
            0,
            texts(collapsed_directories@),
            compact_directories,
        ),
{
    let mut all: Vec<Vec<Vec<char>>> = Vec::new();
    let mut i: usize = 0;
    while i < paths.len()
        invariant
            i <= paths@.len(),
            parts_of(all@) == split_paths(paths@).take(i as int),
        decreases paths@.len() - i,
    {
        let parts = split_chars(paths[i].as_str(), '/');
        let ghost a0 = parts_of(all@);
        assert(name_views(parts@) =~= split_on(paths@[i as int]@, '/'));
        all.push(parts);
        assert(parts_of(all@) =~= a0.push(split_on(paths@[i as int]@, '/')));
        assert(split_paths(paths@).take(i + 1) =~= split_paths(paths@).take(i as int).push(split_on(paths@[i as int]@, '/')));
        i = i + 1;
    }
    assert(split_paths(paths@).take(paths@.len() as int) =~= split_paths(paths@));
    let root: Vec<Vec<char>> = Vec::new();
    assert(name_views(root@) =~= Seq::<Seq<char>>::empty());
    let mut entries: Vec<FileTreeEntry> = Vec::new();
    let top = String::new();
    assert(row_views(entries@) =~= Seq::<TreeRow>::empty());
    append_entries(&all, &root, &top, 0, collapsed_directories, compact_directories, &mut entries);
    assert(row_views(entries@) =~= tree_rows(
        split_paths(paths@),
        Seq::empty(),
        top@,
        0,
        texts(collapsed_directories@),
        compact_directories,
    ));
    entries
}

} // verus!
