//! Crawl orchestration: the decision step for one fetched page, and the
//! two-phase round loop over an in-memory site.
//!
//! The page phase repeats rounds: snapshot the pending set; if it is
//! empty, stop; otherwise fetch every snapshotted suffix, mark it
//! visited, extract its links and resources, filter the links against
//! the visited set, and enqueue what is new. New entries discovered
//! during a round appear only in the next round's snapshot. A fetch
//! failure is isolated to its own suffix: the suffix still counts as
//! visited, and contributes nothing to the frontier.

use vstd::prelude::*;

use crate::extract::{extract_links, extract_resources, retained_links, retained_resources};
use crate::frontier::{contains_suffix, Frontier};
use crate::text::{chars_to_string, string_chars};
use vstd::seq_lib::seq_to_set_is_finite;
use vstd::set_lib::lemma_len_subset;

verus! {

/// One page of an in-memory site: a suffix and the raw text served for
/// it. A suffix the site does not list fails to fetch.
pub struct SitePage {
    pub suffix: String,
    pub text: String,
}

/// Site suffixes are pairwise distinct.
pub open spec fn site_wf(st: Seq<SitePage>) -> bool {
    forall|i: int, j: int| 0 <= i < j < st.len() ==> st[i].suffix@ != st[j].suffix@
}

/// The site serves a page at `s`.
pub open spec fn site_has(st: Seq<SitePage>, s: Seq<char>) -> bool {
    exists|i: int| 0 <= i < st.len() && st[i].suffix@ == s
}

/// The text the site serves at `s`.
pub open spec fn site_text(st: Seq<SitePage>, s: Seq<char>) -> Seq<char> {
    st[choose|i: int| 0 <= i < st.len() && st[i].suffix@ == s].text@
}

/// `s` is reachable from `start` in at most `n` link steps: it is the
/// start itself, or a retained link of some reachable page the site
/// serves.
pub open spec fn reachable_in(st: Seq<SitePage>, start: Seq<char>, s: Seq<char>, n: nat) -> bool
    decreases n,
{
    if s == start {
        true
    } else if n == 0 {
        false
    } else {
        exists|p: Seq<char>|
            reachable_in(st, start, p, (n - 1) as nat) && site_has(st, p) && retained_links(
                site_text(st, p),
            ).contains(s)
    }
}

/// `s` is reachable from `start` through retained links of served pages.
pub open spec fn reachable(st: Seq<SitePage>, start: Seq<char>, s: Seq<char>) -> bool {
    exists|n: nat| reachable_in(st, start, s, n)
}

/// Every retained link of every page the site serves.
spec fn links_union(st: Seq<SitePage>) -> Set<Seq<char>>
    decreases st.len(),
{
    if st.len() == 0 {
        Set::empty()
    } else {
        links_union(st.drop_last()).union(retained_links(st.last().text@).to_set())
    }
}

/// Every suffix the crawl can ever discover: the start and every
/// retained link of every served page.
spec fn universe(st: Seq<SitePage>, start: Seq<char>) -> Set<Seq<char>> {
    links_union(st).insert(start)
}

proof fn lemma_links_union_finite(st: Seq<SitePage>)
    ensures
        links_union(st).finite(),
    decreases st.len(),
{
    broadcast use seq_to_set_is_finite;

    if st.len() > 0 {
        lemma_links_union_finite(st.drop_last());
    }
}

proof fn lemma_links_union_contains(st: Seq<SitePage>, i: int, s: Seq<char>)
    requires
        0 <= i < st.len(),
        retained_links(st[i].text@).contains(s),
    ensures
        links_union(st).contains(s),
    decreases st.len(),
{
    if i == st.len() - 1 {
        assert(retained_links(st.last().text@).to_set().contains(s));
    } else {
        assert(st.drop_last()[i] == st[i]);
        lemma_links_union_contains(st.drop_last(), i, s);
    }
}

/// Everything the frontier currently holds or has handled.
spec fn seen(f: Frontier) -> Set<Seq<char>> {
    f.pending_set().union(f.visited_set())
}

/// Every retained link of every visited page the site serves has been
/// discovered: it is pending or visited.
spec fn links_discovered(st: Seq<SitePage>, f: Frontier) -> bool {
    forall|v: Seq<char>, l: Seq<char>|
        #![trigger f.visited_set().contains(v), retained_links(site_text(st, v)).contains(l)]
        f.visited_set().contains(v) && site_has(st, v) && retained_links(
            site_text(st, v),
        ).contains(l) ==> seen(f).contains(l)
}

/// Everything discovered is reachable from the start.
spec fn all_reachable(st: Seq<SitePage>, start: Seq<char>, f: Frontier) -> bool {
    forall|x: Seq<char>| #[trigger] seen(f).contains(x) ==> reachable(st, start, x)
}

/// The queued resources are exactly the retained resources of the
/// visited pages the site serves.
pub open spec fn resources_exact(st: Seq<SitePage>, f: Frontier) -> bool {
    forall|x: Seq<char>|
        #[trigger] f.resource_set().contains(x) <==> exists|v: Seq<char>|
            #![auto]
            f.visited_set().contains(v) && site_has(st, v) && retained_resources(
                site_text(st, v),
            ).contains(x)
}

/// The invariant of the page phase.
spec fn crawl_inv(st: Seq<SitePage>, start: Seq<char>, f: Frontier) -> bool {
    &&& f.wf()
    &&& forall|x: Seq<char>|
        !(f.pending_set().contains(x) && #[trigger] f.visited_set().contains(x))
    &&& seen(f).contains(start)
    &&& seen(f).subset_of(universe(st, start))
    &&& links_discovered(st, f)
    &&& all_reachable(st, start, f)
    &&& resources_exact(st, f)
}

/// The set of a sequence grows by exactly the pushed element.
proof fn lemma_to_set_push<A>(s: Seq<A>, x: A)
    ensures
        s.push(x).to_set() == s.to_set().insert(x),
{
    assert forall|y: A| #[trigger] s.push(x).to_set().contains(y) implies s.to_set().insert(
        x,
    ).contains(y) by {
        let q = choose|q: int| 0 <= q < s.push(x).len() && s.push(x)[q] == y;
        if q < s.len() {
            assert(s[q] == y);
        }
    }
    assert forall|y: A| #[trigger] s.to_set().insert(x).contains(y) implies s.push(
        x,
    ).to_set().contains(y) by {
        if y == x {
            assert(s.push(x)[s.len() as int] == y);
        } else {
            let q = choose|q: int| 0 <= q < s.len() && s[q] == y;
            assert(s.push(x)[q] == y);
        }
    }
    assert(s.push(x).to_set() =~= s.to_set().insert(x));
}

proof fn lemma_subset_len_lt<A>(a: Set<A>, b: Set<A>, x: A)
    requires
        b.finite(),
        a.subset_of(b),
        b.contains(x),
        !a.contains(x),
    ensures
        a.finite(),
        a.len() < b.len(),
{
    let b1 = b.remove(x);
    assert(a.subset_of(b1));
    lemma_len_subset(a, b1);
}

/// One fetched page keeps the crawl invariant, and discovery is
/// monotone.
proof fn lemma_record_step(
    st: Seq<SitePage>,
    start: Seq<char>,
    fpre: Frontier,
    fpost: Frontier,
    sfx: Seq<char>,
    served: Option<Seq<char>>,
)
    requires
        site_wf(st),
        crawl_inv(st, start, fpre),
        seen(fpre).contains(sfx),
        match served {
            Some(t) => site_has(st, sfx) && t == site_text(st, sfx),
            None => !site_has(st, sfx),
        },
        fpost.wf(),
        fpost.visited_set() == fpre.visited_set().insert(sfx),
        fpost.pending_set() == (match served {
            Some(t) => fpre.pending_set().remove(sfx).union(
                retained_links(t).to_set().difference(fpre.visited_set().insert(sfx)),
            ),
            None => fpre.pending_set().remove(sfx),
        }),
        fpost.resource_set() == (match served {
            Some(t) => fpre.resource_set().union(retained_resources(t).to_set()),
            None => fpre.resource_set(),
        }),
    ensures
        crawl_inv(st, start, fpost),
        seen(fpre).subset_of(seen(fpost)),
{
    // discovery is monotone: pending only moves to visited
    assert forall|x: Seq<char>| seen(fpre).contains(x) implies #[trigger] seen(fpost).contains(
        x,
    ) by {
        if x == sfx {
            assert(fpost.visited_set().contains(x));
        } else if fpre.pending_set().contains(x) {
            assert(fpost.pending_set().contains(x));
        } else {
            assert(fpost.visited_set().contains(x));
        }
    }
    // pending and visited stay disjoint
    assert forall|x: Seq<char>|
        !(fpost.pending_set().contains(x) && #[trigger] fpost.visited_set().contains(x)) by {
        if fpost.pending_set().contains(x) && fpost.visited_set().contains(x) {
            assert(!fpre.visited_set().contains(x) && x != sfx);
            assert(fpre.pending_set().contains(x));
        }
    }
    // everything new is a retained link of a served page, hence in the
    // universe, and reachable through the fetched page
    if served is Some {
        let t = served->0;
        let j = choose|i: int| 0 <= i < st.len() && st[i].suffix@ == sfx;
        assert(site_text(st, sfx) == st[j].text@);
        let n = choose|n: nat| reachable_in(st, start, sfx, n);
        assert forall|x: Seq<char>| #[trigger] seen(fpost).contains(x) implies universe(
            st,
            start,
        ).contains(x) && reachable(st, start, x) by {
            if seen(fpre).contains(x) {
                assert(universe(st, start).contains(x));
                assert(reachable(st, start, x));
            } else {
                assert(retained_links(t).contains(x));
                lemma_links_union_contains(st, j, x);
                assert(universe(st, start).contains(x));
                if x != start {
                    assert(reachable_in(st, start, sfx, n));
                    assert(reachable_in(st, start, x, n + 1));
                }
                assert(reachable_in(st, start, x, n + 1));
                assert(reachable(st, start, x));
            }
        }
        // links of every visited served page are discovered
        assert forall|v: Seq<char>, l: Seq<char>|
            fpost.visited_set().contains(v) && site_has(st, v) && #[trigger] retained_links(
                site_text(st, v),
            ).contains(l) implies seen(fpost).contains(l) by {
            if v == sfx {
                if fpost.visited_set().contains(l) {
                } else {
                    assert(retained_links(t).to_set().difference(
                        fpre.visited_set().insert(sfx),
                    ).contains(l));
                    assert(fpost.pending_set().contains(l));
                }
            } else {
                assert(fpre.visited_set().contains(v));
                assert(seen(fpre).contains(l));
            }
        }
        // the queued resources are exactly those of the visited served pages
        assert forall|x: Seq<char>| #[trigger] fpost.resource_set().contains(x) implies exists|
            v: Seq<char>,
        |
            #![auto]
            fpost.visited_set().contains(v) && site_has(st, v) && retained_resources(
                site_text(st, v),
            ).contains(x) by {
            if fpre.resource_set().contains(x) {
                let v = choose|v: Seq<char>|
                    #![auto]
                    fpre.visited_set().contains(v) && site_has(st, v) && retained_resources(
                        site_text(st, v),
                    ).contains(x);
                assert(fpost.visited_set().contains(v) && site_has(st, v) && retained_resources(
                    site_text(st, v),
                ).contains(x));
            } else {
                assert(retained_resources(t).to_set().contains(x));
                assert(fpost.visited_set().contains(sfx) && site_has(st, sfx)
                    && retained_resources(site_text(st, sfx)).contains(x));
            }
        }
        assert forall|x: Seq<char>, v: Seq<char>|
            fpost.visited_set().contains(v) && site_has(st, v) && #[trigger] retained_resources(
                site_text(st, v),
            ).contains(x) implies #[trigger] fpost.resource_set().contains(x) by {
            if v == sfx {
                assert(retained_resources(t).to_set().contains(x));
            } else {
                assert(fpre.visited_set().contains(v));
                assert(fpre.resource_set().contains(x));
            }
        }
    } else {
        assert forall|v: Seq<char>, l: Seq<char>|
            fpost.visited_set().contains(v) && site_has(st, v) && #[trigger] retained_links(
                site_text(st, v),
            ).contains(l) implies seen(fpost).contains(l) by {
            assert(v != sfx);
            assert(fpre.visited_set().contains(v));
            assert(seen(fpre).contains(l));
        }
        assert forall|x: Seq<char>| #[trigger] fpost.resource_set().contains(x) implies exists|
            v: Seq<char>,
        |
            #![auto]
            fpost.visited_set().contains(v) && site_has(st, v) && retained_resources(
                site_text(st, v),
            ).contains(x) by {
            let v = choose|v: Seq<char>|
                #![auto]
                fpre.visited_set().contains(v) && site_has(st, v) && retained_resources(
                    site_text(st, v),
                ).contains(x);
            assert(fpost.visited_set().contains(v) && site_has(st, v) && retained_resources(
                site_text(st, v),
            ).contains(x));
        }
        assert forall|x: Seq<char>, v: Seq<char>|
            fpost.visited_set().contains(v) && site_has(st, v) && #[trigger] retained_resources(
                site_text(st, v),
            ).contains(x) implies #[trigger] fpost.resource_set().contains(x) by {
            assert(v != sfx);
            assert(fpre.visited_set().contains(v));
        }
        assert forall|x: Seq<char>| #[trigger] seen(fpost).contains(x) implies universe(
            st,
            start,
        ).contains(x) && reachable(st, start, x) by {
            assert(seen(fpre).contains(x));
        }
    }
}

/// Whatever a closed visited set that holds the start can reach, it
/// already holds: the induction behind the crawl's completeness.
proof fn lemma_reachable_in_visited(
    st: Seq<SitePage>,
    start: Seq<char>,
    vis: Set<Seq<char>>,
    s: Seq<char>,
    n: nat,
)
    requires
        vis.contains(start),
        forall|v: Seq<char>, l: Seq<char>|
            #![trigger vis.contains(v), retained_links(site_text(st, v)).contains(l)]
            vis.contains(v) && site_has(st, v) && retained_links(site_text(st, v)).contains(l)
                ==> vis.contains(l),
        reachable_in(st, start, s, n),
    ensures
        vis.contains(s),
    decreases n,
{
    if s != start {
        let p = choose|p: Seq<char>|
            reachable_in(st, start, p, (n - 1) as nat) && site_has(st, p) && retained_links(
                site_text(st, p),
            ).contains(s);
        lemma_reachable_in_visited(st, start, vis, p, (n - 1) as nat);
    }
}

/// Record the outcome of one page fetch in the frontier: the suffix
/// becomes visited; on success its retained links, filtered against the
/// updated visited set, join `pending`, and its retained resources join
/// `resources`. On failure (`None`) only the visited mark is taken.
pub fn record_page(f: &mut Frontier, suffix: &String, text: Option<&String>)
    requires
        old(f).wf(),
    ensures
        final(f).wf(),
        final(f).visited_set() == old(f).visited_set().insert(suffix@),
        final(f).pending_set() == (match text {
            Some(t) => old(f).pending_set().remove(suffix@).union(
                retained_links(t@).to_set().difference(old(f).visited_set().insert(suffix@)),
            ),
            None => old(f).pending_set().remove(suffix@),
        }),
        final(f).resource_set() == (match text {
            Some(t) => old(f).resource_set().union(retained_resources(t@).to_set()),
            None => old(f).resource_set(),
        }),
        old(f).visited_set().subset_of(final(f).visited_set()),
        old(f).pending_set().disjoint(old(f).visited_set()) ==> final(f).pending_set().disjoint(
            final(f).visited_set(),
        ),
{
    f.mark_visited(suffix);
    match text {
        Some(t) => {
            let tc = string_chars(t.as_str());
            let res = extract_resources(&tc);
            let res_s = to_strings(&res);
            f.enqueue_resources(&res_s);
            let links = extract_links(&tc);
            let fresh = filter_unvisited(f, &links);
            f.enqueue_links(&fresh);
            proof {
                assert(f.pending_set() =~= old(f).pending_set().remove(suffix@).union(
                    retained_links(t@).to_set().difference(
                        old(f).visited_set().insert(suffix@),
                    ),
                ));
            }
        },
        None => {},
    }
    proof {
        // a suffix once visited never re-enters pending
        if old(f).pending_set().disjoint(old(f).visited_set()) {
            assert forall|x: Seq<char>| #[trigger] f.pending_set().contains(x) implies !f.visited_set().contains(x) by {
                if f.visited_set().contains(x) {
                    assert(old(f).pending_set().contains(x));
                    assert(x != suffix@);
                    assert(old(f).visited_set().contains(x));
                }
            }
        }
    }
}

/// The strings of a list of character vectors, in order.
fn to_strings(v: &Vec<Vec<char>>) -> (r: Vec<String>)
    ensures
        r.deep_view() == v.deep_view(),
{
    let mut r: Vec<String> = Vec::new();
    let mut i: usize = 0;
    proof {
        assert(r.deep_view() =~= v.deep_view().subrange(0, 0));
    }
    while i < v.len()
        invariant
            i <= v@.len(),
            v.deep_view().len() == v@.len(),
            r.deep_view() == v.deep_view().subrange(0, i as int),
        decreases v@.len() - i,
    {
        let ghost r0 = r.deep_view();
        let s = chars_to_string(&v[i]);
        r.push(s);
        proof {
            assert(r.deep_view() =~~= r0.push(v.deep_view()[i as int]));
            assert(r.deep_view() =~= v.deep_view().subrange(0, i + 1));
        }
        i += 1;
    }
    proof {
        assert(v.deep_view().subrange(0, i as int) =~= v.deep_view());
    }
    r
}

/// The links not yet visited, as strings: exactly the link set minus the
/// frontier's visited set.
fn filter_unvisited(f: &Frontier, links: &Vec<Vec<char>>) -> (r: Vec<String>)
    ensures
        r.deep_view().to_set() == links.deep_view().to_set().difference(f.visited_set()),
{
    let mut r: Vec<String> = Vec::new();
    let mut i: usize = 0;
    while i < links.len()
        invariant
            i <= links@.len(),
            links.deep_view().len() == links@.len(),
            forall|q: int| 0 <= q < r.deep_view().len() ==> !f.visited_set().contains(
                #[trigger] r.deep_view()[q],
            ),
            forall|q: int| 0 <= q < r.deep_view().len() ==> links.deep_view().subrange(
                0,
                i as int,
            ).contains(#[trigger] r.deep_view()[q]),
            forall|q: int|
                0 <= q < i && !f.visited_set().contains(#[trigger] links.deep_view()[q])
                    ==> r.deep_view().contains(links.deep_view()[q]),
        decreases links@.len() - i,
    {
        let ghost r0 = r.deep_view();
        let ghost lv = links.deep_view();
        let s = chars_to_string(&links[i]);
        proof {
            assert(s@ =~= lv[i as int]);
        }
        if !contains_suffix(&f.visited, &s) {
            r.push(s);
            proof {
                assert(r.deep_view() =~= r0.push(lv[i as int]));
                assert(!f.visited_set().contains(lv[i as int]));
                assert forall|q: int| 0 <= q < r.deep_view().len() implies lv.subrange(
                    0,
                    i + 1,
                ).contains(#[trigger] r.deep_view()[q]) by {
                    if q < r0.len() {
                        let w = choose|w: int| 0 <= w < i && lv.subrange(0, i as int)[w] == r0[q];
                        assert(lv.subrange(0, i + 1)[w] == r0[q]);
                    } else {
                        assert(lv.subrange(0, i + 1)[i as int] == lv[i as int]);
                    }
                }
                assert forall|q: int|
                    0 <= q <= i && !f.visited_set().contains(#[trigger] lv[q]) implies r.deep_view().contains(
                    lv[q],
                ) by {
                    if q < i {
                        let w = choose|w: int| 0 <= w < r0.len() && r0[w] == lv[q];
                        assert(r.deep_view()[w] == lv[q]);
                    } else {
                        assert(r.deep_view()[r0.len() as int] == lv[i as int]);
                    }
                }
            }
        } else {
            proof {
                assert(f.visited.deep_view().contains(s@));
                assert(f.visited_set().contains(lv[i as int]));
                assert forall|q: int| 0 <= q < r.deep_view().len() implies lv.subrange(
                    0,
                    i + 1,
                ).contains(#[trigger] r.deep_view()[q]) by {
                    let w = choose|w: int| 0 <= w < i && lv.subrange(0, i as int)[w] == r0[q];
                    assert(lv.subrange(0, i + 1)[w] == r0[q]);
                }
            }
        }
        i += 1;
    }
    proof {
        let lv = links.deep_view();
        assert(lv.subrange(0, i as int) =~= lv);
        assert forall|x: Seq<char>| #[trigger] r.deep_view().to_set().contains(x) implies lv.to_set().difference(f.visited_set()).contains(x) by {
            let q = choose|q: int| 0 <= q < r.deep_view().len() && r.deep_view()[q] == x;
            assert(lv.contains(x));
        }
        assert forall|x: Seq<char>| #[trigger] lv.to_set().difference(f.visited_set()).contains(x) implies r.deep_view().to_set().contains(x) by {
            let q = choose|q: int| 0 <= q < lv.len() && lv[q] == x;
            assert(r.deep_view().contains(lv[q]));
        }
        assert(r.deep_view().to_set() =~= lv.to_set().difference(f.visited_set()));
    }
    r
}

/// The text the in-memory site serves for a suffix, or nothing: the
/// local stand-in for one page fetch.
fn serve_page(site: &Vec<SitePage>, suffix: &String) -> (r: Option<String>)
    requires
        site_wf(site@),
    ensures
        r is Some <==> site_has(site@, suffix@),
        r is Some ==> r->0@ == site_text(site@, suffix@),
{
    let mut i: usize = 0;
    while i < site.len()
        invariant
            i <= site@.len(),
            forall|q: int| 0 <= q < i ==> site@[q].suffix@ != suffix@,
            site_wf(site@),
        decreases site@.len() - i,
    {
        if site[i].suffix.eq(suffix) {
            proof {
                assert(site@[i as int].suffix@ == suffix@);
                let j = choose|j: int| 0 <= j < site@.len() && site@[j].suffix@ == suffix@;
                assert(j == i);
            }
            return Some(site[i].text.clone());
        }
        i += 1;
    }
    proof {
        if site_has(site@, suffix@) {
            let q = choose|q: int| 0 <= q < site@.len() && site@[q].suffix@ == suffix@;
            assert(site@[q].suffix@ != suffix@);
        }
    }
    None
}

/// The result of the page phase over an in-memory site.
pub struct CrawlOutcome {
    /// The frontier at termination: `pending` empty, `visited` exactly
    /// the reachable suffixes, `resources` ready for the final phase.
    pub frontier: Frontier,
    /// Every page fetch attempted, in order: no suffix is fetched twice.
    pub fetched: Vec<String>,
    /// How many snapshot rounds the phase took.
    pub rounds: usize,
}

/// The page phase over an in-memory site: rounds of snapshot, fetch,
/// and record, until nothing is pending.
///
/// At termination the visited set is exactly the set of suffixes
/// reachable from the start, each was fetched exactly once, the queued
/// resources are exactly those of the visited served pages, and the
/// number of rounds is at most the number of visited suffixes.
pub fn crawl_pages(site: &Vec<SitePage>, start: String) -> (r: CrawlOutcome)
    requires
        site_wf(site@),
    ensures
        r.frontier.wf(),
        r.frontier.pending_set() == Set::<Seq<char>>::empty(),
        forall|s: Seq<char>| #[trigger]
            r.frontier.visited_set().contains(s) <==> reachable(site@, start@, s),
        r.fetched.deep_view().no_duplicates(),
        r.fetched.deep_view().to_set() == r.frontier.visited_set(),
        r.fetched.deep_view().len() == r.frontier.visited_set().len(),
        r.frontier.visited_set().finite(),
        r.rounds <= r.frontier.visited_set().len(),
        resources_exact(site@, r.frontier),
{
    let ghost st = site@;
    let ghost start_v = start@;
    let mut f = Frontier::new();
    f.seed(start);
    let mut fetched: Vec<String> = Vec::new();
    let mut rounds: usize = 0;
    proof {
        lemma_links_union_finite(st);
        assert(universe(st, start_v).finite());
        assert(f.pending_set() =~= Set::<Seq<char>>::empty().insert(start_v));
        assert(seen(f).contains(start_v));
        assert(reachable_in(st, start_v, start_v, 0));
        assert forall|x: Seq<char>| #[trigger] seen(f).contains(x) implies universe(
            st,
            start_v,
        ).contains(x) && reachable(st, start_v, x) by {
            assert(x == start_v);
            assert(reachable_in(st, start_v, x, 0));
        }
        assert forall|x: Seq<char>| !(#[trigger] f.resource_set().contains(x)) by {}
        assert(crawl_inv(st, start_v, f));
        assert(fetched.deep_view() =~= Seq::<Seq<char>>::empty());
        assert(fetched.deep_view().to_set() =~= f.visited_set());
        lemma_len_subset(f.visited_set(), universe(st, start_v));
    }
    let mut snap = f.snapshot_pending();
    while snap.len() != 0
        invariant
            st == site@,
            site_wf(st),
            crawl_inv(st, start_v, f),
            snap.deep_view() == f.pending.deep_view(),
            fetched.deep_view().no_duplicates(),
            fetched.deep_view().to_set() == f.visited_set(),
            universe(st, start_v).finite(),
            f.visited_set().finite(),
            f.visited_set().len() <= universe(st, start_v).len(),
            rounds <= f.visited_set().len(),
        decreases universe(st, start_v).len() - f.visited_set().len(),
    {
        let ghost v0 = f.visited_set();
        let ghost p0 = f.pending_set();
        let ghost snapd = snap.deep_view();
        proof {
            assert(snapd.to_set() == p0);
            assert(snapd.no_duplicates());
            assert(snapd.len() > 0);
        }
        let mut k: usize = 0;
        proof {
            assert(snapd.subrange(0, 0).to_set() =~= Set::<Seq<char>>::empty());
            assert(v0.union(snapd.subrange(0, 0).to_set()) =~= v0);
        }
        while k < snap.len()
            invariant
                st == site@,
                site_wf(st),
                crawl_inv(st, start_v, f),
                k <= snapd.len(),
                snapd == snap.deep_view(),
                snapd.len() == snap@.len(),
                snapd.no_duplicates(),
                snapd.to_set() == p0,
                forall|x: Seq<char>| !(p0.contains(x) && #[trigger] v0.contains(x)),
                f.visited_set() == v0.union(snapd.subrange(0, k as int).to_set()),
                p0.subset_of(seen(f)),
                fetched.deep_view().no_duplicates(),
                fetched.deep_view().to_set() == f.visited_set(),
            decreases snapd.len() - k,
        {
            let sfx = snap[k].clone();
            proof {
                assert(sfx@ == snapd[k as int]);
                assert(p0.contains(sfx@));
                assert(seen(f).contains(sfx@));
                // not yet visited in this round: fresh for the fetch log
                if f.visited_set().contains(sfx@) {
                    if v0.contains(sfx@) {
                        assert(false);
                    } else {
                        let q = choose|q: int|
                            0 <= q < k && snapd.subrange(0, k as int)[q] == sfx@;
                        assert(snapd[q] == snapd[k as int]);
                        assert(false);
                    }
                }
            }
            let ghost fpre = f;
            let ghost fetched0 = fetched.deep_view();
            let text = serve_page(site, &sfx);
            match &text {
                Some(t) => {
                    record_page(&mut f, &sfx, Some(t));
                    proof {
                        lemma_record_step(st, start_v, fpre, f, sfx@, Some(t@));
                    }
                },
                None => {
                    record_page(&mut f, &sfx, None);
                    proof {
                        lemma_record_step(st, start_v, fpre, f, sfx@, None);
                    }
                },
            }
            fetched.push(sfx);
            proof {
                assert(fetched.deep_view() =~= fetched0.push(snapd[k as int]));
                lemma_to_set_push(fetched0, snapd[k as int]);
                assert(fetched.deep_view().to_set() == f.visited_set());
                assert(fetched.deep_view().no_duplicates()) by {
                    let dv = fetched.deep_view();
                    if !dv.no_duplicates() {
                        let (a, b) = choose|a: int, b: int|
                            0 <= a < dv.len() && 0 <= b < dv.len() && a != b && dv[a] == dv[b];
                        if a < fetched0.len() && b < fetched0.len() {
                            assert(fetched0[a] == fetched0[b]);
                        } else if a < fetched0.len() {
                            assert(fetched0.to_set().contains(fetched0[a]));
                            assert(fpre.visited_set().contains(snapd[k as int]));
                        } else {
                            assert(fetched0.to_set().contains(fetched0[b]));
                            assert(fpre.visited_set().contains(snapd[k as int]));
                        }
                    }
                }
                assert(snapd.subrange(0, k + 1) =~= snapd.subrange(0, k as int).push(
                    snapd[k as int],
                ));
                lemma_to_set_push(snapd.subrange(0, k as int), snapd[k as int]);
                assert(f.visited_set() =~= v0.union(snapd.subrange(0, k + 1).to_set()));
                // everything once discovered stays discovered
                assert forall|x: Seq<char>| p0.contains(x) implies #[trigger] seen(f).contains(
                    x,
                ) by {
                    assert(seen(fpre).contains(x));
                }
            }
            k += 1;
        }
        proof {
            assert(snapd.subrange(0, snapd.len() as int) =~= snapd);
            assert(f.visited_set() == v0.union(p0));
            assert(p0.contains(snapd[0]));
            assert(!v0.contains(snapd[0]));
            lemma_subset_len_lt(v0, f.visited_set(), snapd[0]);
            lemma_len_subset(f.visited_set(), universe(st, start_v));
            assert(rounds + 1 <= f.visited_set().len());
            assert(f.visited_set().len() <= f.visited.deep_view().len()) by {
                f.visited.deep_view().unique_seq_to_set();
            }
        }
        let visited_count = f.visited.len();
        proof {
            assert(f.visited.deep_view().len() == visited_count);
            assert(rounds + 1 <= visited_count);
        }
        rounds += 1;
        snap = f.snapshot_pending();
    }
    proof {
        assert(snap.deep_view().len() == 0);
        assert(f.pending.deep_view() =~= Seq::<Seq<char>>::empty());
        assert forall|x: Seq<char>| !(#[trigger] f.pending_set().contains(x)) by {
            if f.pending_set().contains(x) {
                let q = choose|q: int|
                    0 <= q < f.pending.deep_view().len() && f.pending.deep_view()[q] == x;
            }
        }
        assert(f.pending_set() =~= Set::<Seq<char>>::empty());
        // completeness: everything reachable was visited
        assert forall|s: Seq<char>| #[trigger]
            f.visited_set().contains(s) <==> reachable(st, start_v, s) by {
            if f.visited_set().contains(s) {
                assert(seen(f).contains(s));
            }
            if reachable(st, start_v, s) {
                let n = choose|n: nat| reachable_in(st, start_v, s, n);
                assert(f.visited_set().contains(start_v)) by {
                    assert(seen(f).contains(start_v));
                }
                assert forall|v: Seq<char>, l: Seq<char>|
                    #![trigger f.visited_set().contains(v), retained_links(site_text(st, v)).contains(l)]
                    f.visited_set().contains(v) && site_has(st, v) && retained_links(
                        site_text(st, v),
                    ).contains(l) implies f.visited_set().contains(l) by {
                    assert(seen(f).contains(l));
                }
                lemma_reachable_in_visited(st, start_v, f.visited_set(), s, n);
            }
        }
        fetched.deep_view().unique_seq_to_set();
    }
    CrawlOutcome { frontier: f, fetched, rounds }
}

} // verus!
