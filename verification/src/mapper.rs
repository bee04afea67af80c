//! Mapping from site-relative URL suffixes to local mirror paths.
//!
//! Every fetched page or resource is persisted under one fixed mirror
//! directory; the suffix itself, with its leading slash consumed, is the
//! path below that directory. Suffixes are used verbatim, so distinct
//! slash-led suffixes never collide.

use vstd::prelude::*;

verus! {

/// The fixed directory that every mirrored file lives under.
pub open spec fn mirror_root() -> Seq<char> {
    seq!['r', 'i', 'p', 'p', 'e', 'd']
}

/// The local path for a suffix: the mirror root, then the suffix with its
/// leading slash kept as the separator; a suffix without a leading slash
/// gets a separator of its own.
pub open spec fn mapped_path(s: Seq<char>) -> Seq<char> {
    if s.len() > 0 && s[0] == '/' {
        mirror_root() + s
    } else {
        mirror_root() + seq!['/'] + s
    }
}

/// Mirror path for one suffix, as a string.
pub fn str_to_path_buf(suffix: &str) -> (r: String)
    ensures
        r@ == mapped_path(suffix@),
{
    proof {
        reveal_strlit("ripped");
        reveal_strlit("ripped/");
    }
    let n = suffix.unicode_len();
    if n > 0 && suffix.get_char(0) == '/' {
        let mut r = String::from_str("ripped");
        r.append(suffix);
        proof {
            assert(r@ =~= mapped_path(suffix@));
        }
        r
    } else {
        let mut r = String::from_str("ripped/");
        r.append(suffix);
        proof {
            assert(r@ =~= mapped_path(suffix@));
        }
        r
    }
}

/// Distinct suffixes that both begin with a slash never collide on one
/// mirror path: the mapping is injective on everything the extractor
/// retains.
pub proof fn lemma_mapped_path_injective(s1: Seq<char>, s2: Seq<char>)
    requires
        s1.len() > 0,
        s1[0] == '/',
        s2.len() > 0,
        s2[0] == '/',
        s1 != s2,
    ensures
        mapped_path(s1) != mapped_path(s2),
{
    let r = mirror_root();
    assert(s1 =~= (r + s1).subrange(r.len() as int, (r + s1).len() as int));
    assert(s2 =~= (r + s2).subrange(r.len() as int, (r + s2).len() as int));
}

} // verus!
