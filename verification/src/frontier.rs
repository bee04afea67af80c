//! Crawl progress bookkeeping.
//!
//! The frontier is the single source of truth for the crawl: the suffixes
//! discovered but not yet fetched (`pending`), the suffixes whose fetch
//! has been attempted (`visited`), and the image resource suffixes
//! queued for the final phase (`resources`). All three behave as sets:
//! each list holds a suffix at most once.
//!
//! A suffix that has entered `visited` never re-enters `pending`: the
//! enqueue operation unions new links into `pending` as given, and the
//! caller filters them against `visited` first (see the crawl module).
//!
//! Under concurrent rounds, two tasks of one round may each discover a
//! suffix that no one has visited yet; both enqueue it, the union keeps
//! one entry, and the next round fetches it. That one late fetch is
//! accepted behaviour, not prevented: each operation here guards only
//! its own access to the lists.

use vstd::prelude::*;

verus! {

/// The three semantic sets of crawl progress, over suffix strings.
pub struct Frontier {
    /// Discovered page suffixes whose fetch has not been attempted.
    pub pending: Vec<String>,
    /// Page suffixes whose fetch has been attempted.
    pub visited: Vec<String>,
    /// Discovered image resource suffixes, fetched once after the pages.
    pub resources: Vec<String>,
}

impl Frontier {
    /// The pending suffixes, as a set.
    pub open spec fn pending_set(&self) -> Set<Seq<char>> {
        self.pending.deep_view().to_set()
    }

    /// The visited suffixes, as a set.
    pub open spec fn visited_set(&self) -> Set<Seq<char>> {
        self.visited.deep_view().to_set()
    }

    /// The queued resource suffixes, as a set.
    pub open spec fn resource_set(&self) -> Set<Seq<char>> {
        self.resources.deep_view().to_set()
    }

    /// Each list holds a suffix at most once, so lengths count the sets.
    pub open spec fn wf(&self) -> bool {
        &&& self.pending.deep_view().no_duplicates()
        &&& self.visited.deep_view().no_duplicates()
        &&& self.resources.deep_view().no_duplicates()
    }

    /// A fresh frontier, with nothing discovered.
    pub fn new() -> (r: Frontier)
        ensures
            r.wf(),
            r.pending_set() =~= Set::<Seq<char>>::empty(),
            r.visited_set() =~= Set::<Seq<char>>::empty(),
            r.resource_set() =~= Set::<Seq<char>>::empty(),
    {
        let r = Frontier { pending: Vec::new(), visited: Vec::new(), resources: Vec::new() };
        proof {
            assert(r.pending.deep_view() =~= Seq::<Seq<char>>::empty());
            assert(r.visited.deep_view() =~= Seq::<Seq<char>>::empty());
            assert(r.resources.deep_view() =~= Seq::<Seq<char>>::empty());
            assert(r.pending_set() =~= Set::<Seq<char>>::empty());
            assert(r.visited_set() =~= Set::<Seq<char>>::empty());
            assert(r.resource_set() =~= Set::<Seq<char>>::empty());
        }
        r
    }

    /// Insert the starting page into `pending`.
    pub fn seed(&mut self, suffix: String)
        requires
            old(self).wf(),
        ensures
            final(self).wf(),
            final(self).pending_set() == old(self).pending_set().insert(suffix@),
            final(self).visited_set() == old(self).visited_set(),
            final(self).resource_set() == old(self).resource_set(),
    {
        insert_new(&mut self.pending, suffix);
    }

    /// An immutable copy of the current `pending` set, for one round of
    /// fetch tasks.
    pub fn snapshot_pending(&self) -> (r: Vec<String>)
        ensures
            r.deep_view() == self.pending.deep_view(),
    {
        copy_suffixes(&self.pending)
    }

    /// An immutable copy of the queued resource set, for the final phase.
    pub fn snapshot_resources(&self) -> (r: Vec<String>)
        ensures
            r.deep_view() == self.resources.deep_view(),
    {
        copy_suffixes(&self.resources)
    }

    /// Move a suffix from `pending` to `visited`. Idempotent: a suffix
    /// already visited stays visited, a suffix not pending is simply
    /// recorded as visited.
    pub fn mark_visited(&mut self, suffix: &String)
        requires
            old(self).wf(),
        ensures
            final(self).wf(),
            final(self).pending_set() == old(self).pending_set().remove(suffix@),
            final(self).visited_set() == old(self).visited_set().insert(suffix@),
            final(self).resource_set() == old(self).resource_set(),
    {
        remove_suffix(&mut self.pending, suffix);
        let s = suffix.clone();
        insert_new(&mut self.visited, s);
    }

    /// Union newly discovered link suffixes into `pending`. The caller
    /// is responsible for filtering them against `visited` first.
    pub fn enqueue_links(&mut self, links: &Vec<String>)
        requires
            old(self).wf(),
        ensures
            final(self).wf(),
            final(self).pending_set() == old(self).pending_set().union(
                links.deep_view().to_set(),
            ),
            final(self).visited_set() == old(self).visited_set(),
            final(self).resource_set() == old(self).resource_set(),
    {
        insert_all(&mut self.pending, links);
    }

    /// Union newly discovered resource suffixes into `resources`.
    pub fn enqueue_resources(&mut self, res: &Vec<String>)
        requires
            old(self).wf(),
        ensures
            final(self).wf(),
            final(self).pending_set() == old(self).pending_set(),
            final(self).visited_set() == old(self).visited_set(),
            final(self).resource_set() == old(self).resource_set().union(
                res.deep_view().to_set(),
            ),
    {
        insert_all(&mut self.resources, res);
    }

}

/// Whether a suffix list holds `s`.
pub(crate) fn contains_suffix(v: &Vec<String>, s: &String) -> (r: bool)
    ensures
        r == v.deep_view().contains(s@),
{
    let mut i: usize = 0;
    while i < v.len()
        invariant
            i <= v@.len(),
            forall|q: int| 0 <= q < i ==> v.deep_view()[q] != s@,
        decreases v@.len() - i,
    {
        if v[i].eq(s) {
            assert(v.deep_view()[i as int] == s@);
            return true;
        }
        i += 1;
    }
    proof {
        if v.deep_view().contains(s@) {
            let q = choose|q: int| 0 <= q < v.deep_view().len() && v.deep_view()[q] == s@;
            assert(v.deep_view()[q] != s@);
        }
    }
    false
}

/// Insert `s` unless already present, keeping the list duplicate-free.
fn insert_new(v: &mut Vec<String>, s: String)
    requires
        old(v).deep_view().no_duplicates(),
    ensures
        final(v).deep_view().no_duplicates(),
        final(v).deep_view().to_set() == old(v).deep_view().to_set().insert(s@),
{
    let ghost v0 = v.deep_view();
    if contains_suffix(v, &s) {
        proof {
            assert(v0.to_set() =~= v0.to_set().insert(s@));
        }
    } else {
        v.push(s);
        proof {
            assert(v.deep_view() =~= v0.push(s@));
            assert forall|x: Seq<char>| #[trigger] v0.push(s@).to_set().contains(x) implies v0.to_set().insert(s@).contains(x) by {
                let q = choose|q: int| 0 <= q < v0.push(s@).len() && v0.push(s@)[q] == x;
                if q < v0.len() {
                    assert(v0[q] == x);
                }
            }
            assert forall|x: Seq<char>| #[trigger] v0.to_set().insert(s@).contains(x) implies v0.push(s@).to_set().contains(x) by {
                if x == s@ {
                    assert(v0.push(s@)[v0.len() as int] == x);
                } else {
                    let q = choose|q: int| 0 <= q < v0.len() && v0[q] == x;
                    assert(v0.push(s@)[q] == x);
                }
            }
            assert(v.deep_view().to_set() =~= v0.to_set().insert(s@));
            assert forall|i: int, j: int|
                0 <= i < j < v.deep_view().len() implies v.deep_view()[i] != v.deep_view()[j] by {
                if j < v0.len() {
                    assert(v0[i] != v0[j]);
                } else {
                    assert(v.deep_view()[j] == s@);
                    assert(!v0.contains(s@));
                    assert(v0[i] == v.deep_view()[i]);
                }
            }
        }
    }
}

/// Insert every suffix of `add`, keeping the list duplicate-free.
fn insert_all(v: &mut Vec<String>, add: &Vec<String>)
    requires
        old(v).deep_view().no_duplicates(),
    ensures
        final(v).deep_view().no_duplicates(),
        final(v).deep_view().to_set() == old(v).deep_view().to_set().union(
            add.deep_view().to_set(),
        ),
{
    let ghost v0 = v.deep_view();
    let mut i: usize = 0;
    proof {
        assert(v0.to_set() =~= v0.to_set().union(add.deep_view().subrange(0, 0).to_set()));
    }
    while i < add.len()
        invariant
            i <= add@.len(),
            add.deep_view().len() == add@.len(),
            v.deep_view().no_duplicates(),
            v.deep_view().to_set() == v0.to_set().union(
                add.deep_view().subrange(0, i as int).to_set(),
            ),
        decreases add@.len() - i,
    {
        let ghost pre = add.deep_view().subrange(0, i as int);
        let s = index_string(add, i);
        insert_new(v, s);
        proof {
            let post = add.deep_view().subrange(0, i + 1);
            assert(post =~= pre.push(add.deep_view()[i as int]));
            assert forall|x: Seq<char>| #[trigger] post.to_set().contains(x) implies pre.to_set().insert(add.deep_view()[i as int]).contains(x) by {
                let q = choose|q: int| 0 <= q < post.len() && post[q] == x;
                if q < pre.len() {
                    assert(pre[q] == x);
                }
            }
            assert forall|x: Seq<char>| #[trigger] pre.to_set().insert(add.deep_view()[i as int]).contains(x) implies post.to_set().contains(x) by {
                if x == add.deep_view()[i as int] {
                    assert(post[pre.len() as int] == x);
                } else {
                    let q = choose|q: int| 0 <= q < pre.len() && pre[q] == x;
                    assert(post[q] == x);
                }
            }
            assert(post.to_set() =~= pre.to_set().insert(add.deep_view()[i as int]));
            assert(v.deep_view().to_set() =~= v0.to_set().union(post.to_set()));
        }
        i += 1;
    }
    proof {
        assert(add.deep_view().subrange(0, i as int) =~= add.deep_view());
    }
}

/// Remove every occurrence of `s`.
fn remove_suffix(v: &mut Vec<String>, s: &String)
    requires
        old(v).deep_view().no_duplicates(),
    ensures
        final(v).deep_view().no_duplicates(),
        final(v).deep_view().to_set() == old(v).deep_view().to_set().remove(s@),
{
    let ghost v0 = v.deep_view();
    let mut out: Vec<String> = Vec::new();
    let mut i: usize = 0;
    proof {
        assert(out.deep_view() =~= Seq::<Seq<char>>::empty());
    }
    while i < v.len()
        invariant
            i <= v@.len(),
            v.deep_view() == v0,
            v.deep_view().len() == v@.len(),
            out.deep_view().no_duplicates(),
            forall|q: int| 0 <= q < out.deep_view().len() ==> out.deep_view()[q] != s@,
            forall|q: int| 0 <= q < out.deep_view().len() ==> v0.subrange(0, i as int).contains(
                #[trigger] out.deep_view()[q],
            ),
            forall|q: int|
                0 <= q < i && v0[q] != s@ ==> out.deep_view().contains(#[trigger] v0[q]),
            v0.no_duplicates(),
        decreases v@.len() - i,
    {
        let ghost out0 = out.deep_view();
        let keep = !v[i].eq(s);
        if keep {
            let item = index_string(v, i);
            out.push(item);
            proof {
                assert(out.deep_view() =~= out0.push(v0[i as int]));
                assert forall|q: int|
                    0 <= q < out.deep_view().len() implies v0.subrange(0, i + 1).contains(
                    #[trigger] out.deep_view()[q],
                ) by {
                    if q < out0.len() {
                        let w = choose|w: int| 0 <= w < i && v0.subrange(0, i as int)[w] == out0[q];
                        assert(v0.subrange(0, i + 1)[w] == out0[q]);
                    } else {
                        assert(v0.subrange(0, i + 1)[i as int] == v0[i as int]);
                    }
                }
                assert forall|q: int| 0 <= q <= i && v0[q] != s@ implies out.deep_view().contains(
                    #[trigger] v0[q],
                ) by {
                    if q < i {
                        let w = choose|w: int| 0 <= w < out0.len() && out0[w] == v0[q];
                        assert(out.deep_view()[w] == v0[q]);
                    } else {
                        assert(out.deep_view()[out0.len() as int] == v0[i as int]);
                    }
                }
                assert forall|a: int, b: int|
                    0 <= a < b < out.deep_view().len() implies out.deep_view()[a]
                    != out.deep_view()[b] by {
                    if b < out0.len() {
                        assert(out0[a] != out0[b]);
                    } else {
                        let w = choose|w: int| 0 <= w < i && v0.subrange(0, i as int)[w] == out0[a];
                        assert(v0[w] == out0[a]);
                        assert(v0[w] != v0[i as int]);
                    }
                }
            }
        } else {
            proof {
                assert(v0[i as int] == s@);
                assert forall|q: int|
                    0 <= q < out.deep_view().len() implies v0.subrange(0, i + 1).contains(
                    #[trigger] out.deep_view()[q],
                ) by {
                    let w = choose|w: int| 0 <= w < i && v0.subrange(0, i as int)[w] == out0[q];
                    assert(v0.subrange(0, i + 1)[w] == out0[q]);
                }
            }
        }
        i += 1;
    }
    proof {
        assert(v0.subrange(0, i as int) =~= v0);
        assert forall|x: Seq<char>| #[trigger] out.deep_view().to_set().contains(x) implies v0.to_set().remove(s@).contains(x) by {
            let q = choose|q: int| 0 <= q < out.deep_view().len() && out.deep_view()[q] == x;
            assert(v0.contains(x));
        }
        assert forall|x: Seq<char>| #[trigger] v0.to_set().remove(s@).contains(x) implies out.deep_view().to_set().contains(x) by {
            let q = choose|q: int| 0 <= q < v0.len() && v0[q] == x;
            assert(out.deep_view().contains(v0[q]));
        }
        assert(out.deep_view().to_set() =~= v0.to_set().remove(s@));
    }
    *v = out;
}

/// Copy of a suffix list.
fn copy_suffixes(v: &Vec<String>) -> (r: Vec<String>)
    ensures
        r.deep_view() == v.deep_view(),
{
    let mut r: Vec<String> = Vec::new();
    let mut i: usize = 0;
    proof {
        assert(r.deep_view() =~= v.deep_view().subrange(0, 0));
    }
    while i < v.len()
        invariant
            i <= v@.len(),
            v.deep_view().len() == v@.len(),
            r.deep_view() == v.deep_view().subrange(0, i as int),
        decreases v@.len() - i,
    {
        let ghost r0 = r.deep_view();
        let item = index_string(v, i);
        r.push(item);
        proof {
            assert(r.deep_view() =~= r0.push(v.deep_view()[i as int]));
            assert(r.deep_view() =~= v.deep_view().subrange(0, i + 1));
        }
        i += 1;
    }
    proof {
        assert(v.deep_view().subrange(0, i as int) =~= v.deep_view());
    }
    r
}

/// Clone of the suffix at `i`.
fn index_string(v: &Vec<String>, i: usize) -> (r: String)
    requires
        i < v@.len(),
    ensures
        r@ == v.deep_view()[i as int],
{
    v[i].clone()
}

} // verus!
