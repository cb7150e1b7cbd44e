//! The repositories opened most recently, newest first.
use vstd::prelude::*;

verus! {

/// At most this many repositories are remembered.
pub const MAX_RECENT_REPOSITORIES: usize = 8;

/// Canonical repository roots, newest first, each once.
#[derive(Clone, Debug)]
pub struct RecentRepositories {
    pub repositories: Vec<String>,
}

pub open spec fn root_views(v: Seq<String>) -> Seq<Seq<char>> {
    v.map_values(|s: String| s@)
}

/// Every root but `root`.
pub open spec fn other_than(root: Seq<char>) -> spec_fn(Seq<char>) -> bool {
    |p: Seq<char>| p != root
}

/// The list after opening `root`: `root` first, then the others in their
/// order without `root`, cut to the most recent eight.
pub open spec fn recorded(previous: Seq<Seq<char>>, root: Seq<char>) -> Seq<Seq<char>> {
    let rest = previous.filter(other_than(root));
    let all = seq![root] + rest;
    if all.len() > MAX_RECENT_REPOSITORIES {
        all.take(MAX_RECENT_REPOSITORIES as int)
    } else {
        all
    }
}

impl Default for RecentRepositories {
    fn default() -> (r: Self)
        ensures
            r.repositories@.len() == 0,
    {
        RecentRepositories { repositories: Vec::new() }
    }
}

impl RecentRepositories {
    /// The remembered roots, newest first.
    pub fn paths(&self) -> (p: &[String])
        ensures
            p@ == self.repositories@,
    {
        self.repositories.as_slice()
    }

    /// Remembers the canonical root `root` as the most recent repository.
    pub fn insert(&mut self, root: String)
        ensures
            root_views(final(self).repositories@) == recorded(root_views(old(self).repositories@), root@),
    {
        let ghost previous = root_views(self.repositories@);
        proof {
            reveal(Seq::filter);
        }
        let mut kept: Vec<String> = Vec::new();
        kept.push(root.clone());
        let mut i: usize = 0;
        assert(previous.take(0).filter(other_than(root@)) =~= Seq::<Seq<char>>::empty());
        assert(root_views(kept@) =~= seq![root@]);
        while i < self.repositories.len()
            invariant
                i <= self.repositories@.len(),
                previous == root_views(self.repositories@),
                root_views(kept@) == seq![root@] + previous.take(i as int).filter(other_than(root@)),
            decreases self.repositories@.len() - i,
        {
            proof {
                reveal(Seq::filter);
            }
            assert(previous.take(i + 1).drop_last() =~= previous.take(i as int));
            assert(previous[i as int] == self.repositories@[i as int]@);
            assert(previous.take(i + 1).last() == previous[i as int]);
            let same = self.repositories[i] == root;
            if !same {
                let ghost k0 = kept@;
                kept.push(self.repositories[i].clone());
                assert(other_than(root@)(previous[i as int]));
                assert(previous.take(i + 1).filter(other_than(root@)) == previous.take(i as int).filter(other_than(root@)).push(previous[i as int]));
                assert(root_views(kept@) =~= root_views(k0).push(previous[i as int]));
            } else {
                assert(!other_than(root@)(previous[i as int]));
                assert(previous.take(i + 1).filter(other_than(root@)) == previous.take(i as int).filter(other_than(root@)));
            }
            i = i + 1;
        }
        assert(previous.take(previous.len() as int) =~= previous);
        if kept.len() > MAX_RECENT_REPOSITORIES {
            kept.truncate(MAX_RECENT_REPOSITORIES);
            assert(root_views(kept@) =~= (seq![root@] + previous.filter(other_than(root@))).take(MAX_RECENT_REPOSITORIES as int));
        }
        self.repositories = kept;
    }

    /// Forgets every repository.
    pub fn clear_entries(&mut self)
        ensures
            final(self).repositories@.len() == 0,
    {
        self.repositories.clear();
    }
}


/// After opening `root`, it is the most recent repository; at most eight
/// are kept; a list without repeats stays without repeats; and opening the
/// same repository again changes nothing.
pub proof fn recorded_keeps_newest_unique(previous: Seq<Seq<char>>, root: Seq<char>)
    ensures
        recorded(previous, root)[0] == root,
        1 <= recorded(previous, root).len() <= MAX_RECENT_REPOSITORIES,
        previous.no_duplicates() ==> recorded(previous, root).no_duplicates(),
        recorded(recorded(previous, root), root) == recorded(previous, root),
{
    let rest = previous.filter(other_than(root));
    let all = seq![root] + rest;
    assert(all[0] == root);
    assert forall|k: int| 0 <= k < rest.len() implies rest[k] != root by {
        previous.lemma_filter_pred(other_than(root), k);
    }
    let r = recorded(previous, root);
    assert(r.len() <= all.len());
    assert forall|k: int| 0 <= k < r.len() implies r[k] == all[k] by {}
    if previous.no_duplicates() {
        lemma_filter_no_duplicates(previous, other_than(root));
        assert forall|a: int, b: int| 0 <= a < b < r.len() implies r[a] != r[b] by {
            assert(r[a] == all[a] && r[b] == all[b]);
            if a == 0 {
                assert(all[b] == rest[b - 1]);
            } else {
                assert(all[a] == rest[a - 1] && all[b] == rest[b - 1]);
            }
        }
    }
    assert forall|k: int| 1 <= k < r.len() implies r[k] != root by {
        assert(r[k] == all[k]);
        assert(all[k] == rest[k - 1]);
    }
    lemma_filter_drop_first(r, root);
    assert(seq![root] + r.drop_first() =~= r);
}

proof fn lemma_filter_no_duplicates(s: Seq<Seq<char>>, p: spec_fn(Seq<char>) -> bool)
    requires
        s.no_duplicates(),
    ensures
        s.filter(p).no_duplicates(),
    decreases s.len(),
{
    reveal(Seq::filter);
    if s.len() > 0 {
        let init = s.drop_last();
        assert(init.no_duplicates()) by {
            assert forall|a: int, b: int| 0 <= a < b < init.len() implies init[a] != init[b] by {
                assert(init[a] == s[a] && init[b] == s[b]);
            }
        }
        lemma_filter_no_duplicates(init, p);
        if p(s.last()) {
            let f = init.filter(p);
            assert(!f.contains(s.last())) by {
                if f.contains(s.last()) {
                    init.lemma_filter_contains_rev(p, s.last());
                    let t = choose|t: int| 0 <= t < init.len() && init[t] == s.last();
                    assert(s[t] == s[s.len() - 1]);
                }
            }
            let g = f.push(s.last());
            assert(s.filter(p) == g);
            assert forall|a: int, b: int| 0 <= a < b < g.len() implies g[a] != g[b] by {
                if b == f.len() {
                    assert(f.contains(g[a]));
                }
            }
        }
    }
}

proof fn lemma_filter_drop_first(r: Seq<Seq<char>>, root: Seq<char>)
    requires
        r.len() >= 1,
        r[0] == root,
        forall|k: int| 1 <= k < r.len() ==> r[k] != root,
    ensures
        r.filter(other_than(root)) == r.drop_first(),
    decreases r.len(),
{
    reveal(Seq::filter);
    if r.len() == 1 {
        assert(r.drop_last() =~= Seq::<Seq<char>>::empty());
        assert(!other_than(root)(r.last()));
        assert(r.filter(other_than(root)) == r.drop_last().filter(other_than(root)));
        assert(r.filter(other_than(root)) =~= Seq::<Seq<char>>::empty());
        assert(r.drop_first() =~= Seq::<Seq<char>>::empty());
    } else {
        let init = r.drop_last();
        lemma_filter_drop_first(init, root);
        assert(other_than(root)(r.last()));
        assert(r.filter(other_than(root)) == init.filter(other_than(root)).push(r.last()));
        assert(r.drop_first() =~= init.drop_first().push(r.last()));
    }
}
} // verus!
