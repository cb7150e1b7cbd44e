//! Pure helpers of the review workspace: the sidebar's file order, the
//! repository's path inventory, path filters, folding every unchanged run
//! of a file, and the project's display name.
use vstd::prelude::*;
use vstd::string::StringExecFns;
use crate::calls::{is_visible, visible};
use crate::file_tree::{chars_before, insert_name, lemma_lex_asymmetric, lemma_lex_transitive, lex_less, name_views, strictly_sorted, texts};
use crate::layout::{
    is_collapsed, logical_sections_of, logical_unchanged_sections, section_key, UnchangedSection,
};
use crate::lsp::LspSymbol;
use crate::model::NativeFile;
use crate::paths::{file_name, file_name_of};
use crate::text::{chars_of, string_of};

verus! {

/// The position in `sorted` at which `f` goes so that files with the same
/// path keep their order: after every file whose path does not sort after
/// its own, from position `k` on.
pub open spec fn place_of(sorted: Seq<NativeFile>, f: NativeFile, k: int) -> int
    decreases sorted.len() - k,
{
    if k >= sorted.len() {
        sorted.len() as int
    } else if lex_less(f.path@, sorted[k].path@) {
        k
    } else {
        place_of(sorted, f, k + 1)
    }
}

/// The files in path order; files with equal paths keep their order.
pub open spec fn sorted_by_path(files: Seq<NativeFile>) -> Seq<NativeFile>
    decreases files.len(),
{
    if files.len() == 0 {
        Seq::empty()
    } else {
        let s = sorted_by_path(files.drop_last());
        s.insert(place_of(s, files.last(), 0), files.last())
    }
}


proof fn lemma_place_bounds(sorted: Seq<NativeFile>, f: NativeFile, k: int)
    requires
        0 <= k <= sorted.len(),
    ensures
        k <= place_of(sorted, f, k) <= sorted.len(),
    decreases sorted.len() - k,
{
    if k < sorted.len() && !lex_less(f.path@, sorted[k].path@) {
        lemma_place_bounds(sorted, f, k + 1);
    }
}

proof fn lemma_place_split(sorted: Seq<NativeFile>, f: NativeFile, k: int)
    requires
        0 <= k <= sorted.len(),
        forall|t: int| 0 <= t < k ==> !lex_less(f.path@, (#[trigger] sorted[t]).path@),
    ensures
        forall|t: int| 0 <= t < place_of(sorted, f, k) ==> !lex_less(f.path@, (#[trigger] sorted[t]).path@),
        place_of(sorted, f, k) < sorted.len() ==> lex_less(f.path@, sorted[place_of(sorted, f, k)].path@),
    decreases sorted.len() - k,
{
    if k < sorted.len() && !lex_less(f.path@, sorted[k].path@) {
        lemma_place_split(sorted, f, k + 1);
    }
}

/// Whether the files are in path order.
pub open spec fn in_path_order(files: Seq<NativeFile>) -> bool {
    forall|i: int, j: int| 0 <= i < j < files.len() ==> !lex_less((#[trigger] files[j]).path@, (#[trigger] files[i]).path@)
}

/// Sorting by path puts the files in path order and keeps exactly the
/// files there were, each as often.
pub proof fn sorting_orders_and_keeps_files(files: Seq<NativeFile>)
    ensures
        in_path_order(sorted_by_path(files)),
        sorted_by_path(files).to_multiset() == files.to_multiset(),
    decreases files.len(),
{
    if files.len() == 0 {
        assert(files =~= Seq::<NativeFile>::empty());
    } else {
        let init = files.drop_last();
        let x = files.last();
        sorting_orders_and_keeps_files(init);
        let s = sorted_by_path(init);
        let p = place_of(s, x, 0);
        lemma_place_bounds(s, x, 0);
        lemma_place_split(s, x, 0);
        let r = s.insert(p, x);
        assert(r == sorted_by_path(files));
        assert forall|i: int, j: int| 0 <= i < j < r.len() implies !lex_less((#[trigger] r[j]).path@, (#[trigger] r[i]).path@) by {
            if j < p {
                assert(r[i] == s[i] && r[j] == s[j]);
            } else if j == p {
                assert(r[i] == s[i]);
            } else if i == p {
                assert(r[j] == s[j - 1]);
                assert(lex_less(x.path@, s[p].path@));
                if j - 1 == p {
                    lemma_lex_asymmetric(x.path@, s[p].path@);
                } else {
                    assert(!lex_less(s[j - 1].path@, s[p].path@));
                    if lex_less(s[j - 1].path@, x.path@) {
                        lemma_lex_transitive(s[j - 1].path@, x.path@, s[p].path@);
                    }
                }
            } else if i < p {
                assert(r[i] == s[i] && r[j] == s[j - 1]);
            } else {
                assert(r[i] == s[i - 1] && r[j] == s[j - 1]);
            }
        }
        vstd::seq_lib::to_multiset_insert(s, p, x);
        vstd::seq_lib::to_multiset_build(init, x);
        assert(init.push(x) =~= files);
    }
}

/// The position at which `f` goes in the sorted `files[..n]`.
fn place_in(files: &Vec<NativeFile>, n: usize, f: &NativeFile) -> (p: usize)
    requires
        n <= files@.len(),
    ensures
        p == place_of(files@.take(n as int), *f, 0),
{
    let ghost s = files@.take(n as int);
    let key = chars_of(f.path.as_str());
    let mut k: usize = 0;
    while k < n
        invariant
            k <= n <= files@.len(),
            s == files@.take(n as int),
            key@ == f.path@,
            place_of(s, *f, 0) == place_of(s, *f, k as int),
        decreases n - k,
    {
        let other = chars_of(files[k].path.as_str());
        assert(s[k as int] == files@[k as int]);
        if chars_before(&key, &other) {
            return k;
        }
        k = k + 1;
    }
    k
}

/// Sorts the files by path, keeping files with equal paths in order. The
/// sidebar's order does not depend on the order the version control system
/// reported them in.
pub fn sort_files_alphabetically(files: &mut Vec<NativeFile>)
    ensures
        final(files)@ == sorted_by_path(old(files)@),
{
    let ghost original = files@;
    let mut i: usize = 0;
    assert(files@.take(0) =~= sorted_by_path(original.take(0)));
    while i < files.len()
        invariant
            i <= files@.len(),
            files@.len() == original.len(),
            files@.take(i as int) == sorted_by_path(original.take(i as int)),
            files@.skip(i as int) == original.skip(i as int),
        decreases files@.len() - i,
    {
        let ghost before = files@;
        let f = files.remove(i);
        assert(f == original[i as int]) by {
            assert(before.skip(i as int)[0] == before[i as int]);
            assert(original.skip(i as int)[0] == original[i as int]);
        }
        assert(files@.take(i as int) =~= before.take(i as int));
        let p = place_in(files, i, &f);
        proof {
            lemma_place_bounds(files@.take(i as int), f, 0);
        }
        files.insert(p, f);
        proof {
            let s = before.take(i as int);
            assert(original.take(i + 1).drop_last() =~= original.take(i as int));
            assert(original.take(i + 1).last() == original[i as int]);
            assert(files@.take(i + 1) =~= s.insert(p as int, f));
            assert(files@.skip(i + 1) =~= original.skip(i + 1)) by {
                assert forall|t: int| 0 <= t < files@.skip(i + 1).len() implies #[trigger] files@.skip(i + 1)[t] == original.skip(i + 1)[t] by {
                    assert(files@[i + 1 + t] == before[i + 1 + t]);
                    assert(before.skip(i as int)[t + 1] == original.skip(i as int)[t + 1]);
                }
            }
        }
        i = i + 1;
    }
    assert(files@.take(i as int) =~= files@);
    assert(original.take(i as int) =~= original);
}

/// Whether the path is hidden by one of the filter patterns: some pattern
/// that compiles as a glob matches it.
pub fn is_path_filtered(path: &str, patterns: &[String]) -> (b: bool)
    requires
        crate::calls::patterns_in_limit(patterns@),
    ensures
        b == !visible(patterns@, path@),
{
    let p = path.to_owned();
    !is_visible(patterns, &p)
}

/// The name shown for the project at `root`: the last component of the
/// path, or `project` when it has none.
pub fn project_name_for(root: &str) -> (name: String)
    ensures
        name@ == match file_name(root@) {
            Some(n) => n,
            None => "project"@,
        },
{
    match file_name_of(root) {
        Some(v) => string_of(&v, 0, v.len()),
        None => "project".to_string(),
    }
}

/// The repository's paths for the full tree: the listed paths and the
/// changed files' paths, so that deleted files stay visible, in order and
/// without repeats.
pub fn repository_paths(listed: &[String], changed: &[NativeFile]) -> (paths: Vec<String>)
    ensures
        strictly_sorted(texts(paths@)),
        forall|x: Seq<char>| texts(paths@).contains(x) <==> (texts(listed@).contains(x)
            || exists|k: int| 0 <= k < changed@.len() && #[trigger] changed@[k].path@ == x),
{
    let mut names: Vec<Vec<char>> = Vec::new();
    let mut i: usize = 0;
    assert(name_views(names@) =~= Seq::<Seq<char>>::empty());
    while i < listed.len()
        invariant
            i <= listed@.len(),
            strictly_sorted(name_views(names@)),
            forall|x: Seq<char>| name_views(names@).contains(x) <==> texts(listed@).take(i as int).contains(x),
        decreases listed@.len() - i,
    {
        let c = chars_of(listed[i].as_str());
        let ghost cv = c@;
        insert_name(&mut names, c);
        proof {
            assert(texts(listed@).take(i + 1) =~= texts(listed@).take(i as int).push(cv));
            assert forall|x: Seq<char>| name_views(names@).contains(x) <==> texts(listed@).take(i + 1).contains(x) by {
                if x == cv {
                    assert(texts(listed@).take(i + 1)[i as int] == cv);
                }
                if texts(listed@).take(i + 1).contains(x) {
                    let t = choose|t: int| 0 <= t < i + 1 && #[trigger] texts(listed@).take(i + 1)[t] == x;
                    if t < i {
                        assert(texts(listed@).take(i as int)[t] == x);
                    }
                }
                if texts(listed@).take(i as int).contains(x) {
                    let t = choose|t: int| 0 <= t < i && #[trigger] texts(listed@).take(i as int)[t] == x;
                    assert(texts(listed@).take(i + 1)[t] == x);
                }
            }
        }
        i = i + 1;
    }
    assert(texts(listed@).take(listed@.len() as int) =~= texts(listed@));
    let mut k: usize = 0;
    while k < changed.len()
        invariant
            k <= changed@.len(),
            strictly_sorted(name_views(names@)),
            forall|x: Seq<char>| name_views(names@).contains(x) <==> (texts(listed@).contains(x)
                || exists|t: int| 0 <= t < k && #[trigger] changed@[t].path@ == x),
        decreases changed@.len() - k,
    {
        let c = chars_of(changed[k].path.as_str());
        let ghost cv = c@;
        insert_name(&mut names, c);
        proof {
            assert forall|x: Seq<char>| name_views(names@).contains(x) <==> (texts(listed@).contains(x)
                || exists|t: int| 0 <= t < k + 1 && #[trigger] changed@[t].path@ == x) by {
                if exists|t: int| 0 <= t < k + 1 && #[trigger] changed@[t].path@ == x {
                    let t = choose|t: int| 0 <= t < k + 1 && #[trigger] changed@[t].path@ == x;
                    if t == k {
                        assert(x == cv);
                    }
                }
                if x == cv {
                    assert(changed@[k as int].path@ == x);
                }
            }
        }
        k = k + 1;
    }
    let mut paths: Vec<String> = Vec::new();
    let mut j: usize = 0;
    while j < names.len()
        invariant
            j <= names@.len(),
            texts(paths@) == name_views(names@).take(j as int),
        decreases names@.len() - j,
    {
        let s = string_of(&names[j], 0, names[j].len());
        let ghost t0 = texts(paths@);
        paths.push(s);
        assert(names@[j as int]@.subrange(0, names@[j as int]@.len() as int) =~= names@[j as int]@);
        assert(texts(paths@) =~= t0.push(name_views(names@)[j as int]));
        assert(name_views(names@).take(j + 1) =~= name_views(names@).take(j as int).push(name_views(names@)[j as int]));
        j = j + 1;
    }
    assert(name_views(names@).take(names@.len() as int) =~= name_views(names@));
    paths
}

/// Folds every unchanged run of `file`, as cut at its declarations, adding
/// the ones not folded yet to `collapsed_sections`.
#[verifier::spinoff_prover]
pub fn hide_unchanged_sections_for_file(
    file: &NativeFile,
    collapsed_sections: &mut Vec<UnchangedSection>,
    symbols: &[LspSymbol],
)
    ensures
        exists|sections: Seq<UnchangedSection>|
            logical_sections_of(*file, symbols@, sections) && forall|s: UnchangedSection|
                is_collapsed(final(collapsed_sections)@, s) <==> (is_collapsed(old(collapsed_sections)@, s)
                    || is_collapsed(sections, s)),
        final(collapsed_sections)@.take(old(collapsed_sections)@.len() as int) == old(collapsed_sections)@,
{
    let sections = logical_unchanged_sections(file, symbols);
    let ghost start = collapsed_sections@;
    let mut i: usize = 0;
    while i < sections.len()
        invariant
            i <= sections@.len(),
            collapsed_sections@.take(start.len() as int) == start,
            start.len() <= collapsed_sections@.len(),
            forall|s: UnchangedSection| is_collapsed(collapsed_sections@, s) <==> (is_collapsed(start, s)
                || is_collapsed(sections@.take(i as int), s)),
        decreases sections@.len() - i,
    {
        let ghost c0 = collapsed_sections@;
        let ghost si = sections@[i as int];
        let ghost taken = sections@.take(i + 1);
        assert(taken[i as int] == si);
        let section = crate::layout::copy_section(&sections[i]);
        collapsed_sections.push(section);
        proof {
            assert(collapsed_sections@ =~= c0.push(section));
            assert(collapsed_sections@.take(start.len() as int) =~= start) by {
                assert forall|t: int| 0 <= t < start.len() implies collapsed_sections@[t] == start[t] by {
                    assert(c0.take(start.len() as int)[t] == start[t]);
                }
            }
            assert(taken =~= sections@.take(i as int).push(si));
            assert forall|s: UnchangedSection| is_collapsed(collapsed_sections@, s) <==> (is_collapsed(start, s)
                || is_collapsed(taken, s)) by {
                lemma_collapsed_push(c0, section, s);
                lemma_collapsed_push(sections@.take(i as int), si, s);
            }
        }
        i = i + 1;
    }
    assert(sections@.take(sections@.len() as int) =~= sections@);
    assert(logical_sections_of(*file, symbols@, sections@));
    assert(forall|s: UnchangedSection|
        is_collapsed(collapsed_sections@, s) <==> (is_collapsed(start, s) || is_collapsed(sections@, s)));
}

proof fn lemma_collapsed_push(list: Seq<UnchangedSection>, x: UnchangedSection, s: UnchangedSection)
    ensures
        is_collapsed(list.push(x), s) <==> (is_collapsed(list, s) || section_key(x) == section_key(s)),
{
    let l2 = list.push(x);
    if is_collapsed(l2, s) {
        let t = choose|t: int| 0 <= t < l2.len() && section_key(#[trigger] l2[t]) == section_key(s);
        if t < list.len() {
            assert(list[t] == l2[t]);
        }
    }
    if is_collapsed(list, s) {
        let t = choose|t: int| 0 <= t < list.len() && section_key(#[trigger] list[t]) == section_key(s);
        assert(l2[t] == list[t]);
    }
    if section_key(x) == section_key(s) {
        assert(l2[list.len() as int] == x);
    }
}

/// The status line of the file-filter panel: that no filter is active, or
/// how many filters are active and how many files they hide.
pub open spec fn filter_status_text(active_count: nat, hidden_files: nat) -> Seq<char> {
    if active_count == 0 {
        "No filters active"@
    } else {
        crate::text::decimal(active_count) + " active · "@ + crate::text::decimal(hidden_files) + " hidden"@
    }
}

/// The status line of the file-filter panel (see [`filter_status_text`]).
pub fn filter_status(active_count: usize, hidden_files: usize) -> (s: String)
    ensures
        s@ == filter_status_text(active_count as nat, hidden_files as nat),
{
    if active_count == 0 {
        return "No filters active".to_string();
    }
    let mut s = String::new();
    crate::text::push_decimal(&mut s, active_count);
    s.append(" active · ");
    crate::text::push_decimal(&mut s, hidden_files);
    s.append(" hidden");
    s
}

} // verus!
