//! Link and resource extraction from raw page text.
//!
//! No structural markup parser is used: the text is scanned for literal
//! occurrences of an attribute marker (`href=` for links, `src=` for
//! resources). At each occurrence the scan skips the marker and the
//! opening quote, then accumulates characters until a double quote
//! terminates the candidate. A scan that reaches the end of the text
//! without a terminating quote yields no candidate at that occurrence.
//!
//! Candidates are then filtered: links must be plain same-site paths,
//! resources must be slash-led image references.

use vstd::prelude::*;

verus! {

/// Position of the first double quote in `t` at or after `from`, if any.
pub open spec fn quote_from(t: Seq<char>, from: int) -> Option<int>
    decreases t.len() - from,
{
    if from < 0 || from >= t.len() {
        None
    } else if t[from] == '"' {
        Some(from)
    } else {
        quote_from(t, from + 1)
    }
}

/// The marker `m` occurs in `t` at position `i`.
pub open spec fn is_match(t: Seq<char>, m: Seq<char>, i: int) -> bool {
    &&& 0 <= i
    &&& i + m.len() <= t.len()
    &&& t.subrange(i, i + m.len() as int) == m
}

/// The candidate read at an occurrence of `m` at `i`: the characters after
/// the marker and the opening quote, up to the terminating double quote;
/// none if the text ends before one appears.
pub open spec fn candidate_at(t: Seq<char>, m: Seq<char>, i: int) -> Option<Seq<char>> {
    match quote_from(t, i + m.len() + 1) {
        Some(j) => Some(t.subrange(i + m.len() + 1, j)),
        None => None,
    }
}

/// Every candidate of marker `m` in `t`, taking occurrences at or after
/// position `i` in order.
pub open spec fn candidates_from(t: Seq<char>, m: Seq<char>, i: int) -> Seq<Seq<char>>
    decreases t.len() - i,
{
    if i < 0 || i >= t.len() || i + m.len() > t.len() {
        Seq::empty()
    } else if is_match(t, m, i) {
        match candidate_at(t, m, i) {
            Some(c) => seq![c] + candidates_from(t, m, i + 1),
            None => candidates_from(t, m, i + 1),
        }
    } else {
        candidates_from(t, m, i + 1)
    }
}

/// Every candidate of marker `m` in `t`, in order of occurrence.
pub open spec fn candidates(t: Seq<char>, m: Seq<char>) -> Seq<Seq<char>> {
    candidates_from(t, m, 0)
}

/// The marker that introduces a link candidate.
pub open spec fn href_marker() -> Seq<char> {
    seq!['h', 'r', 'e', 'f', '=']
}

/// The marker that introduces a resource candidate.
pub open spec fn src_marker() -> Seq<char> {
    seq!['s', 'r', 'c', '=']
}

/// A link candidate is retained iff it is a plain same-site path: it
/// starts with a slash and carries no scheme, query, or fragment
/// separator.
pub open spec fn link_ok(l: Seq<char>) -> bool {
    &&& l.len() > 0
    &&& l[0] == '/'
    &&& forall|k: int| 0 <= k < l.len() ==> l[k] != ':' && l[k] != '?' && l[k] != '#'
}

/// The recognised image extensions, literal and case-sensitive.
pub open spec fn image_exts() -> Seq<Seq<char>> {
    seq![
        seq!['.', 'j', 'p', 'g'],
        seq!['.', 'p', 'n', 'g'],
        seq!['.', 'j', 'p', 'e', 'g'],
        seq!['.', 'g', 'i', 'f'],
        seq!['.', 's', 'v', 'g'],
    ]
}

/// `s` ends with `suffix`.
pub open spec fn ends_with(s: Seq<char>, suffix: Seq<char>) -> bool {
    s.len() >= suffix.len() && s.subrange(s.len() - suffix.len(), s.len() as int) == suffix
}

/// A resource candidate is retained iff it starts with a slash and ends
/// with one of the recognised image extensions.
pub open spec fn resource_ok(r: Seq<char>) -> bool {
    &&& r.len() > 0
    &&& r[0] == '/'
    &&& exists|e: int| 0 <= e < image_exts().len() && ends_with(r, image_exts()[e])
}

/// The candidates of `s` that pass the link filter, in order.
pub open spec fn kept_links(s: Seq<Seq<char>>) -> Seq<Seq<char>>
    decreases s.len(),
{
    if s.len() == 0 {
        Seq::empty()
    } else if link_ok(s.first()) {
        seq![s.first()] + kept_links(s.drop_first())
    } else {
        kept_links(s.drop_first())
    }
}

/// The candidates of `s` that pass the resource filter, in order.
pub open spec fn kept_resources(s: Seq<Seq<char>>) -> Seq<Seq<char>>
    decreases s.len(),
{
    if s.len() == 0 {
        Seq::empty()
    } else if resource_ok(s.first()) {
        seq![s.first()] + kept_resources(s.drop_first())
    } else {
        kept_resources(s.drop_first())
    }
}

/// The link suffixes one page text contributes to the crawl.
pub open spec fn retained_links(t: Seq<char>) -> Seq<Seq<char>> {
    kept_links(candidates(t, href_marker()))
}

/// The resource suffixes one page text contributes to the crawl.
pub open spec fn retained_resources(t: Seq<char>) -> Seq<Seq<char>> {
    kept_resources(candidates(t, src_marker()))
}

/// `c` is the quote-terminated span of some occurrence of `m` at or
/// after position `i0` in `t`.
pub open spec fn terminated_candidate(t: Seq<char>, m: Seq<char>, i0: int, c: Seq<char>) -> bool {
    exists|i: int, j: int|
        #![auto]
        {
            &&& is_match(t, m, i)
            &&& i0 <= i
            &&& i + m.len() + 1 <= j < t.len()
            &&& t[j] == '"'
            &&& (forall|q: int| i + m.len() + 1 <= q < j ==> t[q] != '"')
            &&& c == t.subrange(i + m.len() + 1, j)
        }
}

proof fn lemma_quote_from(t: Seq<char>, from: int, j: int)
    requires
        quote_from(t, from) == Some(j),
    ensures
        from <= j < t.len(),
        t[j] == '"',
        forall|q: int| from <= q < j ==> t[q] != '"',
    decreases t.len() - from,
{
    if from < 0 || from >= t.len() {
    } else if t[from] == '"' {
    } else {
        lemma_quote_from(t, from + 1, j);
    }
}

proof fn lemma_terminated_weaken(t: Seq<char>, m: Seq<char>, i0: int, c: Seq<char>)
    requires
        terminated_candidate(t, m, i0 + 1, c),
    ensures
        terminated_candidate(t, m, i0, c),
{
    let (i, j) = choose|i: int, j: int|
        #![auto]
        {
            &&& is_match(t, m, i)
            &&& i0 + 1 <= i
            &&& i + m.len() + 1 <= j < t.len()
            &&& t[j] == '"'
            &&& (forall|q: int| i + m.len() + 1 <= q < j ==> t[q] != '"')
            &&& c == t.subrange(i + m.len() + 1, j)
        };
    assert(is_match(t, m, i) && i0 <= i && i + m.len() + 1 <= j < t.len() && t[j] == '"' && (
    forall|q: int| i + m.len() + 1 <= q < j ==> t[q] != '"') && c == t.subrange(
        i + m.len() + 1,
        j,
    ));
}

proof fn lemma_candidates_from_terminated(t: Seq<char>, m: Seq<char>, i0: int, k: int)
    requires
        0 <= k < candidates_from(t, m, i0).len(),
    ensures
        terminated_candidate(t, m, i0, candidates_from(t, m, i0)[k]),
    decreases t.len() - i0,
{
    if i0 < 0 || i0 >= t.len() || i0 + m.len() > t.len() {
    } else if is_match(t, m, i0) {
        match candidate_at(t, m, i0) {
            Some(c) => {
                if k == 0 {
                    let j = quote_from(t, i0 + m.len() + 1)->0;
                    lemma_quote_from(t, i0 + m.len() + 1, j);
                    assert(candidates_from(t, m, i0)[0] == c);
                    assert(is_match(t, m, i0) && i0 <= i0 && i0 + m.len() + 1 <= j < t.len()
                        && t[j] == '"' && (forall|q: int|
                        i0 + m.len() + 1 <= q < j ==> t[q] != '"') && c == t.subrange(
                        i0 + m.len() + 1,
                        j,
                    ));
                } else {
                    assert(candidates_from(t, m, i0)[k] == candidates_from(t, m, i0 + 1)[k - 1]);
                    lemma_candidates_from_terminated(t, m, i0 + 1, k - 1);
                    lemma_terminated_weaken(t, m, i0, candidates_from(t, m, i0)[k]);
                }
            },
            None => {
                lemma_candidates_from_terminated(t, m, i0 + 1, k);
                lemma_terminated_weaken(t, m, i0, candidates_from(t, m, i0)[k]);
            },
        }
    } else {
        lemma_candidates_from_terminated(t, m, i0 + 1, k);
        lemma_terminated_weaken(t, m, i0, candidates_from(t, m, i0)[k]);
    }
}

/// Every extracted candidate was terminated by a double quote strictly
/// inside the text: the scan never reads past the end, and an occurrence
/// whose accumulation finds no closing quote yields no candidate.
pub proof fn lemma_candidates_quote_terminated(t: Seq<char>, m: Seq<char>, k: int)
    requires
        0 <= k < candidates(t, m).len(),
    ensures
        terminated_candidate(t, m, 0, candidates(t, m)[k]),
{
    lemma_candidates_from_terminated(t, m, 0, k);
}

/// No extracted candidate carries a double quote: accumulation stopped
/// at the first one.
pub proof fn lemma_candidate_quote_free(t: Seq<char>, m: Seq<char>, k: int)
    requires
        0 <= k < candidates(t, m).len(),
    ensures
        forall|q: int|
            0 <= q < candidates(t, m)[k].len() ==> candidates(t, m)[k][q] != '"',
{
    lemma_candidates_quote_terminated(t, m, k);
    let c = candidates(t, m)[k];
    let (i, j) = choose|i: int, j: int|
        #![auto]
        {
            &&& is_match(t, m, i)
            &&& 0 <= i
            &&& i + m.len() + 1 <= j < t.len()
            &&& t[j] == '"'
            &&& (forall|q: int| i + m.len() + 1 <= q < j ==> t[q] != '"')
            &&& c == t.subrange(i + m.len() + 1, j)
        };
    assert forall|q: int| 0 <= q < c.len() implies c[q] != '"' by {
        assert(c[q] == t[i + m.len() + 1 + q]);
    }
}

proof fn lemma_cons_contains<A>(x: A, s: Seq<A>, l: A)
    ensures
        (seq![x] + s).contains(l) <==> (x == l || s.contains(l)),
{
    let c = seq![x] + s;
    if c.contains(l) {
        let idx = choose|idx: int| 0 <= idx < c.len() && c[idx] == l;
        if idx == 0 {
            assert(x == l);
        } else {
            assert(s[idx - 1] == l);
        }
    }
    if x == l {
        assert(c[0] == l);
    }
    if s.contains(l) {
        let idx = choose|idx: int| 0 <= idx < s.len() && s[idx] == l;
        assert(c[idx + 1] == l);
    }
}

proof fn lemma_kept_links_contains(s: Seq<Seq<char>>, l: Seq<char>)
    ensures
        kept_links(s).contains(l) <==> (s.contains(l) && link_ok(l)),
    decreases s.len(),
{
    if s.len() == 0 {
    } else {
        lemma_kept_links_contains(s.drop_first(), l);
        assert(s =~= seq![s.first()] + s.drop_first());
        lemma_cons_contains(s.first(), s.drop_first(), l);
        if link_ok(s.first()) {
            lemma_cons_contains(s.first(), kept_links(s.drop_first()), l);
        }
    }
}

proof fn lemma_kept_resources_contains(s: Seq<Seq<char>>, l: Seq<char>)
    ensures
        kept_resources(s).contains(l) <==> (s.contains(l) && resource_ok(l)),
    decreases s.len(),
{
    if s.len() == 0 {
    } else {
        lemma_kept_resources_contains(s.drop_first(), l);
        assert(s =~= seq![s.first()] + s.drop_first());
        lemma_cons_contains(s.first(), s.drop_first(), l);
        if resource_ok(s.first()) {
            lemma_cons_contains(s.first(), kept_resources(s.drop_first()), l);
        }
    }
}

/// A candidate is among the retained links iff it was scanned from an
/// `href=` occurrence, starts with `/`, and carries none of `:`, `?`,
/// `#`.
pub proof fn lemma_link_retained_iff(t: Seq<char>, l: Seq<char>)
    ensures
        retained_links(t).contains(l) <==> (candidates(t, href_marker()).contains(l) && link_ok(
            l,
        )),
{
    lemma_kept_links_contains(candidates(t, href_marker()), l);
}

/// A candidate is among the retained resources iff it was scanned from a
/// `src=` occurrence, starts with `/`, and ends with one of the image
/// extensions.
pub proof fn lemma_resource_retained_iff(t: Seq<char>, r: Seq<char>)
    ensures
        retained_resources(t).contains(r) <==> (candidates(t, src_marker()).contains(r)
            && resource_ok(r)),
{
    lemma_kept_resources_contains(candidates(t, src_marker()), r);
}

/// Whether `marker` occurs in `text` at position `i`.
fn is_match_at(text: &Vec<char>, marker: &Vec<char>, i: usize) -> (r: bool)
    requires
        i < text@.len(),
    ensures
        r == is_match(text@, marker@, i as int),
{
    if marker.len() > text.len() - i {
        return false;
    }
    let mut k: usize = 0;
    while k < marker.len()
        invariant
            text@.len() <= usize::MAX,
            i + marker@.len() <= text@.len(),
            k <= marker@.len(),
            forall|q: int| 0 <= q < k ==> text@[i + q] == marker@[q],
        decreases marker@.len() - k,
    {
        if text[i + k] != marker[k] {
            proof {
                let sub = text@.subrange(i as int, i + marker@.len() as int);
                assert(sub[k as int] == text@[i + k]);
            }
            return false;
        }
        k += 1;
    }
    proof {
        assert(text@.subrange(i as int, i + marker@.len() as int) =~= marker@);
    }
    true
}

/// Position of the first double quote in `text` at or after `from`.
fn find_quote(text: &Vec<char>, from: usize) -> (r: Option<usize>)
    ensures
        match r {
            Some(j) => from <= j < text@.len() && quote_from(text@, from as int) == Some(j as int),
            None => quote_from(text@, from as int) is None,
        },
{
    let mut j: usize = from;
    while j < text.len()
        invariant
            from <= j,
            quote_from(text@, from as int) == quote_from(text@, j as int),
        decreases text@.len() - j,
    {
        if text[j] == '"' {
            return Some(j);
        }
        j += 1;
    }
    None
}

/// Copy of `text[from..to]`.
fn copy_range(text: &Vec<char>, from: usize, to: usize) -> (r: Vec<char>)
    requires
        from <= to <= text@.len(),
    ensures
        r@ == text@.subrange(from as int, to as int),
{
    let mut r: Vec<char> = Vec::new();
    let mut k: usize = from;
    while k < to
        invariant
            from <= k <= to <= text@.len(),
            r@ =~= text@.subrange(from as int, k as int),
        decreases to - k,
    {
        r.push(text[k]);
        k += 1;
    }
    proof {
        assert(r@ =~= text@.subrange(from as int, to as int));
    }
    r
}

/// One pass over `text`, collecting the quote-terminated candidate at
/// every occurrence of `marker`. The scan is bounds-checked throughout:
/// an occurrence whose value runs off the end of the text is discarded.
pub fn scan_candidates(text: &Vec<char>, marker: &Vec<char>) -> (r: Vec<Vec<char>>)
    ensures
        r.deep_view() == candidates(text@, marker@),
{
    let ghost t = text@;
    let ghost m = marker@;
    let mut out: Vec<Vec<char>> = Vec::new();
    let mut i: usize = 0;
    proof {
        assert(out.deep_view() + candidates_from(t, m, 0) =~= candidates_from(t, m, 0));
    }
    while i < text.len()
        invariant
            t == text@,
            m == marker@,
            i <= t.len(),
            candidates(t, m) == out.deep_view() + candidates_from(t, m, i as int),
        decreases t.len() - i,
    {
        let ghost out0 = out.deep_view();
        if is_match_at(text, marker, i) {
            if marker.len() < text.len() - i {
                let start = i + marker.len() + 1;
                match find_quote(text, start) {
                    Some(j) => {
                        let cand = copy_range(text, start, j);
                        out.push(cand);
                        proof {
                            assert(candidate_at(t, m, i as int) == Some(cand@));
                            assert(candidates_from(t, m, i as int) == seq![cand@]
                                + candidates_from(t, m, i + 1));
                            assert(out.deep_view() =~~= out0 + seq![cand@]);
                            assert(out.deep_view() + candidates_from(t, m, i + 1)
                                =~= out0 + candidates_from(t, m, i as int));
                        }
                    },
                    None => {
                        proof {
                            assert(candidate_at(t, m, i as int) is None);
                        }
                    },
                }
            } else {
                proof {
                    assert(i + m.len() == t.len());
                    assert(quote_from(t, i + m.len() + 1) is None);
                    assert(candidate_at(t, m, i as int) is None);
                }
            }
        }
        i += 1;
    }
    proof {
        assert(candidates_from(t, m, i as int) =~= Seq::<Seq<char>>::empty());
        assert(out.deep_view() =~= out.deep_view() + candidates_from(t, m, i as int));
    }
    out
}

/// Whether a link candidate passes the link filter.
fn link_keep(l: &Vec<char>) -> (r: bool)
    ensures
        r == link_ok(l@),
{
    if l.len() == 0 {
        return false;
    }
    if l[0] != '/' {
        return false;
    }
    let mut k: usize = 0;
    while k < l.len()
        invariant
            k <= l@.len(),
            l@.len() > 0 && l@[0] == '/',
            forall|q: int| 0 <= q < k ==> l@[q] != ':' && l@[q] != '?' && l@[q] != '#',
        decreases l@.len() - k,
    {
        let c = l[k];
        if c == ':' || c == '?' || c == '#' {
            return false;
        }
        k += 1;
    }
    true
}

/// Whether `s` ends with the four characters `a b c d`.
fn ends_with_4(s: &Vec<char>, a: char, b: char, c: char, d: char) -> (r: bool)
    ensures
        r == ends_with(s@, seq![a, b, c, d]),
{
    let n = s.len();
    if n < 4 {
        return false;
    }
    let r = s[n - 4] == a && s[n - 3] == b && s[n - 2] == c && s[n - 1] == d;
    proof {
        let suf = seq![a, b, c, d];
        let sub = s@.subrange(s@.len() - 4, s@.len() as int);
        if r {
            assert(sub =~= suf);
        } else if sub == suf {
            assert(s@[s@.len() - 4] == sub[0] && s@[s@.len() - 3] == sub[1]
                && s@[s@.len() - 2] == sub[2] && s@[s@.len() - 1] == sub[3]);
        }
    }
    r
}

/// Whether `s` ends with the five characters `a b c d e`.
fn ends_with_5(s: &Vec<char>, a: char, b: char, c: char, d: char, e: char) -> (r: bool)
    ensures
        r == ends_with(s@, seq![a, b, c, d, e]),
{
    let n = s.len();
    if n < 5 {
        return false;
    }
    let r = s[n - 5] == a && s[n - 4] == b && s[n - 3] == c && s[n - 2] == d && s[n - 1] == e;
    proof {
        let suf = seq![a, b, c, d, e];
        let sub = s@.subrange(s@.len() - 5, s@.len() as int);
        if r {
            assert(sub =~= suf);
        } else if sub == suf {
            assert(s@[s@.len() - 5] == sub[0] && s@[s@.len() - 4] == sub[1]
                && s@[s@.len() - 3] == sub[2] && s@[s@.len() - 2] == sub[3]
                && s@[s@.len() - 1] == sub[4]);
        }
    }
    r
}

/// Whether a resource candidate passes the resource filter.
fn resource_keep(r: &Vec<char>) -> (b: bool)
    ensures
        b == resource_ok(r@),
{
    if r.len() == 0 {
        return false;
    }
    if r[0] != '/' {
        return false;
    }
    let jpg = ends_with_4(r, '.', 'j', 'p', 'g');
    let png = ends_with_4(r, '.', 'p', 'n', 'g');
    let jpeg = ends_with_5(r, '.', 'j', 'p', 'e', 'g');
    let gif = ends_with_4(r, '.', 'g', 'i', 'f');
    let svg = ends_with_4(r, '.', 's', 'v', 'g');
    let keep = jpg || png || jpeg || gif || svg;
    proof {
        if keep {
            if jpg {
                assert(ends_with(r@, image_exts()[0]));
            } else if png {
                assert(ends_with(r@, image_exts()[1]));
            } else if jpeg {
                assert(ends_with(r@, image_exts()[2]));
            } else if gif {
                assert(ends_with(r@, image_exts()[3]));
            } else {
                assert(ends_with(r@, image_exts()[4]));
            }
        } else if resource_ok(r@) {
            let e = choose|e: int| 0 <= e < image_exts().len() && ends_with(r@, image_exts()[e]);
            assert(0 <= e < 5);
        }
    }
    keep
}

/// The marker characters of `href=`.
fn href_marker_chars() -> (r: Vec<char>)
    ensures
        r@ == href_marker(),
{
    let mut r: Vec<char> = Vec::new();
    r.push('h');
    r.push('r');
    r.push('e');
    r.push('f');
    r.push('=');
    proof {
        assert(r@ =~= href_marker());
    }
    r
}

/// The marker characters of `src=`.
fn src_marker_chars() -> (r: Vec<char>)
    ensures
        r@ == src_marker(),
{
    let mut r: Vec<char> = Vec::new();
    r.push('s');
    r.push('r');
    r.push('c');
    r.push('=');
    proof {
        assert(r@ =~= src_marker());
    }
    r
}

/// Copy of a whole candidate.
fn copy_chars(v: &Vec<char>) -> (r: Vec<char>)
    ensures
        r@ == v@,
{
    let r = copy_range(v, 0, v.len());
    proof {
        assert(v@.subrange(0, v@.len() as int) =~= v@);
    }
    r
}

/// Every link suffix extracted and retained from one page text, in order
/// of occurrence, duplicates included.
pub fn extract_links(text: &Vec<char>) -> (r: Vec<Vec<char>>)
    ensures
        r.deep_view() == retained_links(text@),
{
    let marker = href_marker_chars();
    let cands = scan_candidates(text, &marker);
    let mut out: Vec<Vec<char>> = Vec::new();
    let mut i: usize = 0;
    proof {
        assert(cands.deep_view().skip(0) =~= cands.deep_view());
        assert(out.deep_view() + kept_links(cands.deep_view()) =~= kept_links(
            cands.deep_view(),
        ));
    }
    while i < cands.len()
        invariant
            i <= cands@.len(),
            cands.deep_view().len() == cands@.len(),
            cands.deep_view() == candidates(text@, href_marker()),
            retained_links(text@) == out.deep_view() + kept_links(
                cands.deep_view().skip(i as int),
            ),
        decreases cands@.len() - i,
    {
        let ghost rest = cands.deep_view().skip(i as int);
        let ghost out0 = out.deep_view();
        proof {
            assert(rest.len() == cands@.len() - i);
            assert(rest.first() =~= cands@[i as int]@);
            assert(rest.drop_first() =~= cands.deep_view().skip(i + 1));
        }
        if link_keep(&cands[i]) {
            let cand = copy_chars(&cands[i]);
            out.push(cand);
            proof {
                assert(out.deep_view() =~~= out0 + seq![rest.first()]);
                assert(kept_links(rest) == seq![rest.first()] + kept_links(rest.drop_first()));
                assert(out.deep_view() + kept_links(cands.deep_view().skip(i + 1))
                    =~= out0 + kept_links(rest));
            }
        } else {
            proof {
                assert(kept_links(rest) == kept_links(rest.drop_first()));
            }
        }
        i += 1;
    }
    proof {
        assert(cands.deep_view().skip(i as int) =~= Seq::<Seq<char>>::empty());
        assert(out.deep_view() =~= out.deep_view() + kept_links(Seq::empty()));
    }
    out
}

/// Every resource suffix extracted and retained from one page text, in
/// order of occurrence, duplicates included.
pub fn extract_resources(text: &Vec<char>) -> (r: Vec<Vec<char>>)
    ensures
        r.deep_view() == retained_resources(text@),
{
    let marker = src_marker_chars();
    let cands = scan_candidates(text, &marker);
    let mut out: Vec<Vec<char>> = Vec::new();
    let mut i: usize = 0;
    proof {
        assert(cands.deep_view().skip(0) =~= cands.deep_view());
        assert(out.deep_view() + kept_resources(cands.deep_view()) =~= kept_resources(
            cands.deep_view(),
        ));
    }
    while i < cands.len()
        invariant
            i <= cands@.len(),
            cands.deep_view().len() == cands@.len(),
            cands.deep_view() == candidates(text@, src_marker()),
            retained_resources(text@) == out.deep_view() + kept_resources(
                cands.deep_view().skip(i as int),
            ),
        decreases cands@.len() - i,
    {
        let ghost rest = cands.deep_view().skip(i as int);
        let ghost out0 = out.deep_view();
        proof {
            assert(rest.len() == cands@.len() - i);
            assert(rest.first() =~= cands@[i as int]@);
            assert(rest.drop_first() =~= cands.deep_view().skip(i + 1));
        }
        if resource_keep(&cands[i]) {
            let cand = copy_chars(&cands[i]);
            out.push(cand);
            proof {
                assert(out.deep_view() =~~= out0 + seq![rest.first()]);
                assert(kept_resources(rest) == seq![rest.first()] + kept_resources(
                    rest.drop_first(),
                ));
                assert(out.deep_view() + kept_resources(cands.deep_view().skip(i + 1))
                    =~= out0 + kept_resources(rest));
            }
        } else {
            proof {
                assert(kept_resources(rest) == kept_resources(rest.drop_first()));
            }
        }
        i += 1;
    }
    proof {
        assert(cands.deep_view().skip(i as int) =~= Seq::<Seq<char>>::empty());
        assert(out.deep_view() =~= out.deep_view() + kept_resources(Seq::empty()));
    }
    out
}

} // verus!
