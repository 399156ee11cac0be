//! Link classification and shallow URL normalization.
//!
//! These operations are string-level conveniences: none of them performs a
//! full parse, so they apply to arbitrary hrefs, valid or not.

use vstd::prelude::*;
use vstd::string::*;
use crate::strutil::chars_of;
use crate::strutil::string_of;
use crate::strutil::find_char;
use crate::strutil::lemma_find_char_no_hit;
use crate::strutil::lemma_find_char_prefix_hit;

verus! {

broadcast use vstd::string::group_string_axioms;

/// `p` is a prefix of `s`.
pub open spec fn has_prefix(s: Seq<char>, p: Seq<char>) -> bool {
    p.len() <= s.len() && s.subrange(0, p.len() as int) == p
}

/// An href is external when it carries an explicit `http://` or `https://`
/// prefix (a literal, case-sensitive match, not a parse).
pub open spec fn spec_is_external(h: Seq<char>) -> bool {
    has_prefix(h, "http://"@) || has_prefix(h, "https://"@)
}

/// An href is internal exactly when it is not external.
pub open spec fn spec_is_internal(h: Seq<char>) -> bool {
    !spec_is_external(h)
}

/// First index at or after `i` where `p` occurs as a subsequence of `s`,
/// or `-1` when there is none.
pub open spec fn find_sub_from(s: Seq<char>, p: Seq<char>, i: int) -> int
    decreases s.len() - i,
{
    if i < 0 || i + p.len() > s.len() {
        -1
    } else if p.len() == 0 {
        i
    } else if s.subrange(i, i + p.len()) == p {
        i
    } else {
        find_sub_from(s, p, i + 1)
    }
}

/// The result of `normalize_url`: the text before the first `#`, with one
/// trailing slash (if any) removed.
pub open spec fn spec_normalize(s: Seq<char>) -> Seq<char> {
    let t = s.take(find_char(s, '#'));
    if t.len() > 0 && t[t.len() - 1] == '/' {
        t.take(t.len() - 1)
    } else {
        t
    }
}

/// Does `s` start with the characters of `p`?
pub fn starts_with_str(s: &str, p: &str) -> (r: bool)
    ensures
        r == has_prefix(s@, p@),
{
    let n = s.unicode_len();
    let m = p.unicode_len();
    if m > n {
        return false;
    }
    let mut i: usize = 0;
    while i < m
        invariant
            m <= n,
            n == s@.len(),
            m == p@.len(),
            i <= m,
            forall|j: int| 0 <= j < i ==> s@[j] == p@[j],
        decreases m - i,
    {
        if s.get_char(i) != p.get_char(i) {
            assert(s@.subrange(0, p@.len() as int)[i as int] != p@[i as int]);
            return false;
        }
        i = i + 1;
    }
    proof {
        assert(s@.subrange(0, p@.len() as int) =~= p@);
    }
    true
}

/// A URL is external when it begins with `http://` or `https://`.
pub fn is_external(href: &str) -> (r: bool)
    ensures
        r == spec_is_external(href@),
{
    starts_with_str(href, "http://") || starts_with_str(href, "https://")
}

/// A URL is internal when it is not external.
pub fn is_internal(href: &str) -> (r: bool)
    ensures
        r == spec_is_internal(href@),
{
    !is_external(href)
}

/// Externality and internality are complementary verdicts: every string is
/// classified as exactly one of the two.
pub proof fn lemma_external_internal_complement(h: Seq<char>)
    ensures
        spec_is_external(h) == !spec_is_internal(h),
{
}

/// A URL is secure when it begins with the literal `https://`.
pub fn is_secure(url: &str) -> (r: bool)
    ensures
        r == has_prefix(url@, "https://"@),
{
    starts_with_str(url, "https://")
}

/// Shallow normalization: drop everything from the first `#` onward, then
/// strip one trailing slash if present. No re-encoding, no `.`/`..`
/// resolution.
pub fn normalize_url(url: &str) -> (r: String)
    ensures
        r@ == spec_normalize(url@),
{
    let v = chars_of(url);
    let mut end: usize = v.len();
    let mut i: usize = 0;
    while i < v.len() && end == v.len()
        invariant
            end <= v@.len(),
            i <= v@.len(),
            end == v@.len() ==> forall|j: int| 0 <= j < i ==> v@[j] != '#',
            end < v@.len() ==> end == i && end == find_char(v@, '#'),
        decreases v@.len() - i + (if end == v@.len() { 1int } else { 0int }),
    {
        if v[i] == '#' {
            proof {
                lemma_find_char_prefix_hit(v@, '#', i as int);
            }
            end = i;
        } else {
            i = i + 1;
        }
    }
    proof {
        if end == v@.len() {
            lemma_find_char_no_hit(v@, '#');
        }
    }
    let mut cut: usize = end;
    if cut > 0 && v[cut - 1] == '/' {
        cut = cut - 1;
    }
    let mut out: Vec<char> = Vec::new();
    let mut k: usize = 0;
    while k < cut
        invariant
            cut <= v@.len(),
            k <= cut,
            out@ == v@.subrange(0, k as int),
        decreases cut - k,
    {
        out.push(v[k]);
        k = k + 1;
        proof {
            assert(out@ =~= v@.subrange(0, k as int));
        }
    }
    proof {
        let t = v@.take(find_char(v@, '#'));
        if t.len() > 0 && t[t.len() - 1] == '/' {
            assert(out@ =~= t.take(t.len() - 1));
        } else {
            assert(out@ =~= t);
        }
    }
    string_of(&out)
}

/// The scheme text before the first `://`, when that delimiter occurs.
pub fn get_protocol(url: &str) -> (r: Option<String>)
    ensures
        match r {
            Some(t) => {
                &&& find_sub_from(url@, "://"@, 0) >= 0
                &&& t@ == url@.take(find_sub_from(url@, "://"@, 0))
            },
            None => find_sub_from(url@, "://"@, 0) == -1,
        },
{
    proof {
        reveal_strlit("://");
    }
    let v = chars_of(url);
    let n = v.len();
    if n >= 3 {
        let mut i: usize = 0;
        while i <= n - 3
            invariant
                n == v@.len(),
                v@ == url@,
                i + 3 <= n + 1,
                n >= 3,
                forall|j: int| 0 <= j < i ==> #[trigger] find_sub_from(url@, "://"@, j) == find_sub_from(url@, "://"@, j + 1),
            decreases n - i,
        {
            if v[i] == ':' && v[i + 1] == '/' && v[i + 2] == '/' {
                proof {
                    assert(url@.subrange(i as int, i + 3) =~= "://"@);
                    lemma_find_sub_stops(url@, "://"@, i as int);
                }
                let mut out: Vec<char> = Vec::new();
                let mut k: usize = 0;
                while k < i
                    invariant
                        i <= v@.len(),
                        k <= i,
                        v@ == url@,
                        out@ == v@.subrange(0, k as int),
                    decreases i - k,
                {
                    out.push(v[k]);
                    k = k + 1;
                    proof {
                        assert(out@ =~= v@.subrange(0, k as int));
                    }
                }
                proof {
                    assert(out@ =~= url@.take(i as int));
                }
                return Some(string_of(&out));
            }
            proof {
                let sub = url@.subrange(i as int, i + 3);
                assert(sub[0] == url@[i as int]);
                assert(sub[1] == url@[i as int + 1]);
                assert(sub[2] == url@[i as int + 2]);
                assert(sub != "://"@) by {
                    if sub == "://"@ {
                        assert(sub[0] == ':' && sub[1] == '/' && sub[2] == '/');
                    }
                }
            }
            i = i + 1;
        }
        proof {
            lemma_find_sub_chain(url@, "://"@, i as int);
        }
        None
    } else {
        assert(find_sub_from(url@, "://"@, 0) == -1);
        None
    }
}

/// Once the scan has passed every index, nothing matches.
proof fn lemma_find_sub_chain(s: Seq<char>, p: Seq<char>, i: int)
    requires
        i >= 0,
        i + p.len() > s.len(),
        forall|j: int| 0 <= j < i ==> #[trigger] find_sub_from(s, p, j) == find_sub_from(s, p, j + 1),
    ensures
        find_sub_from(s, p, 0) == -1,
    decreases i,
{
    if i > 0 {
        assert(find_sub_from(s, p, i) == -1);
        let mut k = i;
        assert forall|j: int| 0 <= j < i implies find_sub_from(s, p, j) == -1 by {
            lemma_find_sub_tail(s, p, j, i);
        }
    }
}

/// From index `j`, if every step up to `i` fails and `i` itself is out of
/// range, the search from `j` fails.
proof fn lemma_find_sub_tail(s: Seq<char>, p: Seq<char>, j: int, i: int)
    requires
        0 <= j <= i,
        i + p.len() > s.len(),
        forall|k: int| 0 <= k < i ==> #[trigger] find_sub_from(s, p, k) == find_sub_from(s, p, k + 1),
    ensures
        find_sub_from(s, p, j) == -1,
    decreases i - j,
{
    if j < i {
        lemma_find_sub_tail(s, p, j + 1, i);
    }
}

/// A hit at `i`, with every earlier start failing, pins the search result.
proof fn lemma_find_sub_stops(s: Seq<char>, p: Seq<char>, i: int)
    requires
        0 <= i,
        i + p.len() <= s.len(),
        s.subrange(i, i + p.len()) == p,
        forall|j: int| 0 <= j < i ==> #[trigger] find_sub_from(s, p, j) == find_sub_from(s, p, j + 1),
    ensures
        find_sub_from(s, p, 0) == i,
    decreases i,
{
    assert(find_sub_from(s, p, i) == i);
    lemma_find_sub_ramp(s, p, 0, i);
}

proof fn lemma_find_sub_ramp(s: Seq<char>, p: Seq<char>, j: int, i: int)
    requires
        0 <= j <= i,
        i + p.len() <= s.len(),
        find_sub_from(s, p, i) == i,
        forall|k: int| 0 <= k < i ==> #[trigger] find_sub_from(s, p, k) == find_sub_from(s, p, k + 1),
    ensures
        find_sub_from(s, p, j) == i,
    decreases i - j,
{
    if j < i {
        lemma_find_sub_ramp(s, p, j + 1, i);
    }
}

} // verus!
