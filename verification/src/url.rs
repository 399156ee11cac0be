//! The URL engine: decomposition, recomposition and origins.
//!
//! The grammar is `scheme ":" ["//" authority] path ["?" query]
//! ["#" fragment]`.  The scheme is matched case-insensitively and stored
//! lowercase; a port equal to the scheme's default is normalized away.
//! Parsing and serialization are exact mirrors: a parsed URL re-serializes
//! to a string that parses back to the same structured value.

use vstd::prelude::*;
use vstd::string::*;
use crate::strutil::all_digits;
use crate::strutil::chars_of;
use crate::strutil::dec_val;
use crate::strutil::dec_value_upto;
use crate::strutil::digit_val;
use crate::strutil::find_char;
use crate::strutil::is_alnum;
use crate::strutil::is_alpha;
use crate::strutil::is_digit;
use crate::strutil::alpha_char;
use crate::strutil::alnum_char;
use crate::strutil::lemma_find_char;
use crate::strutil::lemma_find_char_no_hit;
use crate::strutil::lemma_find_char_prefix_hit;
use crate::strutil::lower_of;
use crate::strutil::lower_seq;
use crate::strutil::string_of;
use crate::strutil::subvec;
use crate::strutil::to_lower_vec;

verus! {

broadcast use vstd::string::group_string_axioms;

/// A parse failure: the input does not fit the URL grammar.
#[derive(Debug, PartialEq, Eq, Structural, Clone, Copy)]
pub enum ParseError {
    Malformed,
}

/// A reference-resolution failure.
#[derive(Debug, PartialEq, Eq, Structural, Clone, Copy)]
pub enum JoinError {
    InvalidBase,
    InvalidRelative,
}

/// A parsed URL.
pub struct Url {
    pub scheme: String,
    pub host: Option<String>,
    pub port: Option<u16>,
    pub path: String,
    pub query: Option<String>,
    pub fragment: Option<String>,
}

/// The mathematical shape of a parsed URL.
pub struct UrlView {
    pub scheme: Seq<char>,
    pub host: Option<Seq<char>>,
    pub port: Option<u16>,
    pub path: Seq<char>,
    pub query: Option<Seq<char>>,
    pub fragment: Option<Seq<char>>,
}

impl View for Url {
    type V = UrlView;

    open spec fn view(&self) -> UrlView {
        UrlView {
            scheme: self.scheme@,
            host: match self.host {
                Some(h) => Some(h@),
                None => None,
            },
            port: self.port,
            path: self.path@,
            query: match self.query {
                Some(q) => Some(q@),
                None => None,
            },
            fragment: match self.fragment {
                Some(f) => Some(f@),
                None => None,
            },
        }
    }
}

/// A character allowed in a scheme after its leading letter.
pub open spec fn is_scheme_char(c: char) -> bool {
    is_alnum(c) || c == '+' || c == '-' || c == '.'
}

/// A valid scheme: a letter followed by letters, digits, `+`, `-` or `.`.
pub open spec fn valid_scheme(s: Seq<char>) -> bool {
    s.len() > 0 && is_alpha(s[0]) && forall|i: int|
        0 <= i < s.len() ==> is_scheme_char(#[trigger] s[i])
}

/// The default port of the well-known schemes.
pub open spec fn default_port(scheme: Seq<char>) -> Option<u16> {
    if scheme == "http"@ || scheme == "ws"@ {
        Some(80u16)
    } else if scheme == "https"@ || scheme == "wss"@ {
        Some(443u16)
    } else if scheme == "ftp"@ {
        Some(21u16)
    } else {
        None
    }
}

/// A character that ends the authority text: the start of a path, query or
/// fragment.
pub open spec fn is_auth_end(c: char) -> bool {
    c == '/' || c == '?' || c == '#'
}

/// First index where the authority ends, or `s.len()`.
pub open spec fn find_auth_end(s: Seq<char>) -> int
    decreases s.len(),
{
    if s.len() == 0 {
        0
    } else if is_auth_end(s[0]) {
        0
    } else {
        1 + find_auth_end(s.drop_first())
    }
}

/// `find_auth_end` is in range and names the first delimiter.
pub proof fn lemma_find_auth_end(s: Seq<char>)
    ensures
        0 <= find_auth_end(s) <= s.len(),
        find_auth_end(s) < s.len() ==> is_auth_end(s[find_auth_end(s)]),
        forall|j: int| 0 <= j < find_auth_end(s) ==> !is_auth_end(#[trigger] s[j]),
    decreases s.len(),
{
    if s.len() > 0 && !is_auth_end(s[0]) {
        lemma_find_auth_end(s.drop_first());
        assert forall|j: int| 0 <= j < find_auth_end(s) implies !is_auth_end(#[trigger] s[j]) by {
            if j > 0 {
                assert(s.drop_first()[j - 1] == s[j]);
            }
        }
    }
}

/// When `s[i]` is the first authority delimiter, `find_auth_end` is `i`.
pub proof fn lemma_find_auth_end_hit(s: Seq<char>, i: int)
    requires
        0 <= i < s.len(),
        is_auth_end(s[i]),
        forall|j: int| 0 <= j < i ==> !is_auth_end(#[trigger] s[j]),
    ensures
        find_auth_end(s) == i,
    decreases s.len(),
{
    if i > 0 {
        assert forall|j: int| 0 <= j < i - 1 implies !is_auth_end(#[trigger] s.drop_first()[j]) by {
            assert(s.drop_first()[j] == s[j + 1]);
        }
        assert(s.drop_first()[i - 1] == s[i]);
        lemma_find_auth_end_hit(s.drop_first(), i - 1);
    }
}

/// When no character of `s` ends an authority, `find_auth_end` is `s.len()`.
pub proof fn lemma_find_auth_end_no_hit(s: Seq<char>)
    requires
        forall|j: int| 0 <= j < s.len() ==> !is_auth_end(#[trigger] s[j]),
    ensures
        find_auth_end(s) == s.len(),
    decreases s.len(),
{
    if s.len() > 0 {
        assert forall|j: int|
            0 <= j < s.len() - 1 implies !is_auth_end(#[trigger] s.drop_first()[j]) by {
            assert(s.drop_first()[j] == s[j + 1]);
        }
        lemma_find_auth_end_no_hit(s.drop_first());
    }
}

/// The path, query and fragment parts of the text after scheme and
/// authority: the fragment starts at the first `#`, the query at the first
/// `?` before that.
pub open spec fn pqf_path(t: Seq<char>) -> Seq<char> {
    t.take(find_char(t, '#')).take(find_char(t.take(find_char(t, '#')), '?'))
}

pub open spec fn pqf_query(t: Seq<char>) -> Option<Seq<char>> {
    let before = t.take(find_char(t, '#'));
    if find_char(before, '?') < before.len() {
        Some(before.skip(find_char(before, '?') + 1))
    } else {
        None
    }
}

pub open spec fn pqf_fragment(t: Seq<char>) -> Option<Seq<char>> {
    if find_char(t, '#') < t.len() {
        Some(t.skip(find_char(t, '#') + 1))
    } else {
        None
    }
}

/// The parsed form of an authority-carrying URL: an empty path becomes `/`.
pub open spec fn assemble(
    scheme: Seq<char>,
    host: Seq<char>,
    port: Option<u16>,
    tail: Seq<char>,
) -> UrlView {
    UrlView {
        scheme: scheme,
        host: Some(host),
        port: port,
        path: if pqf_path(tail).len() == 0 {
            seq!['/']
        } else {
            pqf_path(tail)
        },
        query: pqf_query(tail),
        fragment: pqf_fragment(tail),
    }
}

/// The URL grammar as one function: `None` is a malformed input.
pub open spec fn spec_parse(s: Seq<char>) -> Option<UrlView> {
    let k = find_char(s, ':');
    if k == s.len() || !valid_scheme(s.take(k)) {
        None
    } else {
        let scheme = lower_seq(s.take(k));
        let rest = s.skip(k + 1);
        if rest.len() >= 2 && rest[0] == '/' && rest[1] == '/' {
            let rest2 = rest.skip(2);
            let ae = find_auth_end(rest2);
            let auth = rest2.take(ae);
            let tail = rest2.skip(ae);
            let pk = find_char(auth, ':');
            let host = auth.take(pk);
            if pk == auth.len() {
                Some(assemble(scheme, host, None, tail))
            } else {
                let ps = auth.skip(pk + 1);
                if ps.len() > 0 && all_digits(ps) && dec_val(ps) <= 65535 {
                    let p = dec_val(ps) as u16;
                    Some(
                        assemble(
                            scheme,
                            host,
                            if default_port(scheme) == Some(p) {
                                None
                            } else {
                                Some(p)
                            },
                            tail,
                        ),
                    )
                } else {
                    None
                }
            }
        } else {
            Some(
                UrlView {
                    scheme: scheme,
                    host: None,
                    port: None,
                    path: pqf_path(rest),
                    query: pqf_query(rest),
                    fragment: pqf_fragment(rest),
                },
            )
        }
    }
}

/// The decimal digit character for a value 0 through 9.
pub open spec fn digit_char_of(d: int) -> char {
    if d == 0 {
        '0'
    } else if d == 1 {
        '1'
    } else if d == 2 {
        '2'
    } else if d == 3 {
        '3'
    } else if d == 4 {
        '4'
    } else if d == 5 {
        '5'
    } else if d == 6 {
        '6'
    } else if d == 7 {
        '7'
    } else if d == 8 {
        '8'
    } else {
        '9'
    }
}

/// The canonical decimal digits of a nonnegative number.
pub open spec fn dec_rep(n: int) -> Seq<char>
    decreases n,
{
    if n < 0 {
        Seq::empty()
    } else if n < 10 {
        seq![digit_char_of(n)]
    } else {
        dec_rep(n / 10).push(digit_char_of(n % 10))
    }
}

/// `dec_rep` writes digits whose value is the number again.
pub proof fn lemma_dec_rep(n: int)
    requires
        n >= 0,
    ensures
        dec_rep(n).len() >= 1,
        all_digits(dec_rep(n)),
        dec_val(dec_rep(n)) == n,
    decreases n,
{
    if n < 10 {
        assert(digit_val(digit_char_of(n)) == n);
        assert(dec_rep(n).drop_last() =~= Seq::<char>::empty());
        assert(dec_rep(n)[0] == digit_char_of(n));
        assert(dec_val(dec_rep(n)) == dec_val(Seq::<char>::empty()) * 10 + digit_val(
            digit_char_of(n),
        ));
    } else {
        lemma_dec_rep(n / 10);
        assert(digit_val(digit_char_of(n % 10)) == n % 10);
        assert(dec_rep(n).drop_last() =~= dec_rep(n / 10));
        assert(dec_rep(n)[dec_rep(n).len() - 1] == digit_char_of(n % 10));
        assert(dec_val(dec_rep(n)) == dec_val(dec_rep(n / 10)) * 10 + digit_val(
            digit_char_of(n % 10),
        ));
        assert(n / 10 * 10 + n % 10 == n);
    }
}

/// The canonical text of a URL value.
pub open spec fn spec_serialize(u: UrlView) -> Seq<char> {
    u.scheme + seq![':'] + (match u.host {
        Some(h) => seq!['/', '/'] + h + (match u.port {
            Some(p) => seq![':'] + dec_rep(p as int),
            None => Seq::empty(),
        }),
        None => Seq::empty(),
    }) + u.path + (match u.query {
        Some(q) => seq!['?'] + q,
        None => Seq::empty(),
    }) + (match u.fragment {
        Some(f) => seq!['#'] + f,
        None => Seq::empty(),
    })
}

/// The digit character for an executable digit value.
fn digit_char_exec(d: u32) -> (r: char)
    requires
        d < 10,
    ensures
        r == digit_char_of(d as int),
{
    if d == 0 {
        '0'
    } else if d == 1 {
        '1'
    } else if d == 2 {
        '2'
    } else if d == 3 {
        '3'
    } else if d == 4 {
        '4'
    } else if d == 5 {
        '5'
    } else if d == 6 {
        '6'
    } else if d == 7 {
        '7'
    } else if d == 8 {
        '8'
    } else {
        '9'
    }
}

/// The canonical decimal digits of a port number.
fn dec_digits(p: u16) -> (r: Vec<char>)
    ensures
        r@ == dec_rep(p as int),
{
    let mut tmp: Vec<char> = Vec::new();
    let mut x: u32 = p as u32;
    proof {
        assert(tmp@.reverse() =~= Seq::<char>::empty());
    }
    while x >= 10
        invariant
            x <= p,
            dec_rep(p as int) == dec_rep(x as int) + tmp@.reverse(),
        decreases x,
    {
        let d = x % 10;
        let ghost before = tmp@;
        tmp.push(digit_char_exec(d));
        x = x / 10;
        proof {
            assert(dec_rep((10 * (x as int) + d) as int) == dec_rep(x as int).push(
                digit_char_of(d as int),
            ));
            assert(tmp@.reverse() =~= seq![digit_char_of(d as int)] + before.reverse());
            assert(dec_rep(x as int).push(digit_char_of(d as int)) + before.reverse() =~= dec_rep(
                x as int,
            ) + tmp@.reverse());
        }
    }
    let ghost before = tmp@;
    tmp.push(digit_char_exec(x));
    proof {
        assert(dec_rep(x as int) =~= seq![digit_char_of(x as int)]);
        assert(tmp@.reverse() =~= seq![digit_char_of(x as int)] + before.reverse());
        assert(dec_rep(p as int) =~= tmp@.reverse());
    }
    let mut r: Vec<char> = Vec::new();
    let mut j: usize = tmp.len();
    while j > 0
        invariant
            j <= tmp@.len(),
            r@ == tmp@.reverse().take(tmp@.len() - j),
        decreases j,
    {
        j = j - 1;
        r.push(tmp[j]);
        proof {
            assert(r@ =~= tmp@.reverse().take(tmp@.len() - j));
        }
    }
    proof {
        assert(tmp@.reverse().take(tmp@.len() as int) =~= tmp@.reverse());
    }
    r
}

/// The scheme defaults, as executable lookup.
fn default_port_of(scheme: &Vec<char>) -> (r: Option<u16>)
    ensures
        r == default_port(scheme@),
{
    if crate::strutil::eq_str(scheme, "http") || crate::strutil::eq_str(scheme, "ws") {
        Some(80)
    } else if crate::strutil::eq_str(scheme, "https") || crate::strutil::eq_str(scheme, "wss") {
        Some(443)
    } else if crate::strutil::eq_str(scheme, "ftp") {
        Some(21)
    } else {
        None
    }
}

/// Split the text at `v[start..]` into path, query and fragment.
pub(crate) fn split_pqf(v: &Vec<char>, start: usize) -> (r: (Vec<char>, Option<Vec<char>>, Option<Vec<char>>))
    requires
        start <= v@.len(),
    ensures
        r.0@ == pqf_path(v@.skip(start as int)),
        match r.1 {
            Some(q) => pqf_query(v@.skip(start as int)) == Some(q@),
            None => pqf_query(v@.skip(start as int)) is None,
        },
        match r.2 {
            Some(f) => pqf_fragment(v@.skip(start as int)) == Some(f@),
            None => pqf_fragment(v@.skip(start as int)) is None,
        },
{
    let ghost t = v@.skip(start as int);
    let n = v.len();
    proof {
        assert(forall|j: int| 0 <= j < t.len() ==> t[j] == #[trigger] v@[start + j]);
    }
    let mut h: usize = start;
    while h < n && v[h] != '#'
        invariant
            start <= h <= n,
            n == v@.len(),
            forall|j: int| start <= j < h ==> v@[j] != '#',
        decreases n - h,
    {
        h = h + 1;
    }
    proof {
        if h < n {
            lemma_find_char_prefix_hit(t, '#', h - start);
        } else {
            lemma_find_char_no_hit(t, '#');
        }
        assert(find_char(t, '#') == h - start);
    }
    let frag: Option<Vec<char>> = if h < n {
        let fv = subvec(v, h + 1, n);
        proof {
            assert(t.skip(h - start + 1) =~= v@.subrange(h + 1, n as int));
        }
        Some(fv)
    } else {
        None
    };
    let ghost before = t.take(h - start);
    proof {
        assert(before =~= v@.subrange(start as int, h as int));
    }
    let mut q: usize = start;
    while q < h && v[q] != '?'
        invariant
            start <= q <= h <= n,
            n == v@.len(),
            forall|j: int| start <= j < q ==> v@[j] != '?',
        decreases h - q,
    {
        q = q + 1;
    }
    proof {
        if q < h {
            lemma_find_char_prefix_hit(before, '?', q - start);
        } else {
            lemma_find_char_no_hit(before, '?');
        }
        assert(find_char(before, '?') == q - start);
    }
    let quer: Option<Vec<char>> = if q < h {
        let qv = subvec(v, q + 1, h);
        proof {
            assert(before.skip(q - start + 1) =~= v@.subrange(q + 1, h as int));
        }
        Some(qv)
    } else {
        None
    };
    let path = subvec(v, start, q);
    proof {
        assert(before.take(q - start) =~= v@.subrange(start as int, q as int));
    }
    (path, quer, frag)
}

/// Parse a URL against the grammar; `Err` exactly on malformed input.
#[verifier::rlimit(60)]
#[verifier::spinoff_prover]
pub fn parse(url_str: &str) -> (r: Result<Url, ParseError>)
    ensures
        match r {
            Ok(u) => spec_parse(url_str@) == Some(u@),
            Err(e) => spec_parse(url_str@) is None && e == ParseError::Malformed,
        },
{
    let v = chars_of(url_str);
    let ghost s = url_str@;
    let n = v.len();
    let mut k: usize = 0;
    while k < n && v[k] != ':'
        invariant
            k <= n,
            n == v@.len(),
            v@ == s,
            forall|j: int| 0 <= j < k ==> v@[j] != ':',
        decreases n - k,
    {
        k = k + 1;
    }
    proof {
        if k < n {
            lemma_find_char_prefix_hit(s, ':', k as int);
        } else {
            lemma_find_char_no_hit(s, ':');
        }
        assert(find_char(s, ':') == k);
    }
    if k == n {
        return Err(ParseError::Malformed);
    }
    let sch = subvec(&v, 0, k);
    proof {
        assert(sch@ =~= s.take(k as int));
    }
    if sch.len() == 0 || !alpha_char(sch[0]) {
        return Err(ParseError::Malformed);
    }
    let mut i: usize = 0;
    while i < sch.len()
        invariant
            i <= sch@.len(),
            sch@ == s.take(k as int),
            forall|j: int| 0 <= j < i ==> is_scheme_char(#[trigger] sch@[j]),
        decreases sch@.len() - i,
    {
        let c = sch[i];
        if !(alnum_char(c) || c == '+' || c == '-' || c == '.') {
            return Err(ParseError::Malformed);
        }
        i = i + 1;
    }
    let scheme_v = to_lower_vec(&sch);
    let ghost scheme = lower_seq(s.take(k as int));
    let ghost rest = s.skip(k + 1);
    proof {
        assert(forall|j: int| 0 <= j < rest.len() ==> rest[j] == #[trigger] s[k + 1 + j]);
    }
    if n - k - 1 >= 2 && v[k + 1] == '/' && v[k + 2] == '/' {
        let astart = k + 3;
        let ghost rest2 = rest.skip(2);
        proof {
            assert(rest2 =~= s.skip(astart as int));
            assert(forall|j: int| 0 <= j < rest2.len() ==> rest2[j] == #[trigger] s[astart + j]);
        }
        let mut ae: usize = astart;
        while ae < n && v[ae] != '/' && v[ae] != '?' && v[ae] != '#'
            invariant
                astart <= ae <= n,
                n == v@.len(),
                v@ == s,
                forall|j: int| astart <= j < ae ==> !is_auth_end(#[trigger] v@[j]),
            decreases n - ae,
        {
            ae = ae + 1;
        }
        proof {
            if ae < n {
                lemma_find_auth_end_hit(rest2, ae - astart);
            } else {
                lemma_find_auth_end_no_hit(rest2);
            }
            assert(find_auth_end(rest2) == ae - astart);
        }
        let ghost auth = rest2.take(ae - astart);
        proof {
            assert(auth =~= s.subrange(astart as int, ae as int));
        }
        let mut pk: usize = astart;
        while pk < ae && v[pk] != ':'
            invariant
                astart <= pk <= ae <= n,
                n == v@.len(),
                v@ == s,
                forall|j: int| astart <= j < pk ==> v@[j] != ':',
            decreases ae - pk,
        {
            pk = pk + 1;
        }
        proof {
            if pk < ae {
                lemma_find_char_prefix_hit(auth, ':', pk - astart);
            } else {
                lemma_find_char_no_hit(auth, ':');
            }
            assert(find_char(auth, ':') == pk - astart);
        }
        let host_v = subvec(&v, astart, pk);
        proof {
            assert(host_v@ =~= auth.take(pk - astart));
        }
        let explicit: Option<u16>;
        if pk == ae {
            explicit = None;
        } else {
            let ghost ps = auth.skip(pk - astart + 1);
            proof {
                assert(ps =~= s.subrange(pk + 1, ae as int));
            }
            if pk + 1 == ae {
                return Err(ParseError::Malformed);
            }
            match dec_value_upto(&v, pk + 1, ae, 65535) {
                Some(x) => {
                    explicit = Some(x as u16);
                },
                None => {
                    return Err(ParseError::Malformed);
                },
            }
        }
        let dp = default_port_of(&scheme_v);
        let port: Option<u16> = match explicit {
            Some(p) => {
                let keep: bool = match dp {
                    Some(d) => d != p,
                    None => true,
                };
                if keep {
                    Some(p)
                } else {
                    None
                }
            },
            None => None,
        };
        let (path_v, quer_v, frag_v) = split_pqf(&v, ae);
        let ghost tail = rest2.skip(ae - astart);
        proof {
            assert(tail =~= s.skip(ae as int));
        }
        let path_s: String = if path_v.len() == 0 {
            let mut slash: Vec<char> = Vec::new();
            slash.push('/');
            proof {
                assert(slash@ =~= seq!['/']);
            }
            string_of(&slash)
        } else {
            string_of(&path_v)
        };
        let u = Url {
            scheme: string_of(&scheme_v),
            host: Some(string_of(&host_v)),
            port: port,
            path: path_s,
            query: match quer_v {
                Some(q) => Some(string_of(&q)),
                None => None,
            },
            fragment: match frag_v {
                Some(f) => Some(string_of(&f)),
                None => None,
            },
        };
        return Ok(u);
    }
    let (path_v, quer_v, frag_v) = split_pqf(&v, k + 1);
    proof {
        assert(rest =~= s.skip(k + 1));
    }
    let u = Url {
        scheme: string_of(&scheme_v),
        host: None,
        port: None,
        path: string_of(&path_v),
        query: match quer_v {
            Some(q) => Some(string_of(&q)),
            None => None,
        },
        fragment: match frag_v {
            Some(f) => Some(string_of(&f)),
            None => None,
        },
    };
    Ok(u)
}

/// Well-formedness: what every parsed URL satisfies, and what makes its
/// serialization parse back to the same value.
pub open spec fn wf(u: UrlView) -> bool {
    &&& valid_scheme(u.scheme)
    &&& lower_seq(u.scheme) == u.scheme
    &&& match u.host {
        Some(h) => forall|i: int|
            0 <= i < h.len() ==> !is_auth_end(#[trigger] h[i]) && h[i] != ':',
        None => u.port is None,
    }
    &&& match u.port {
        Some(p) => u.host is Some && default_port(u.scheme) != Some(p),
        None => true,
    }
    &&& match u.host {
        Some(_) => u.path.len() > 0 && u.path[0] == '/',
        None => !(u.path.len() >= 2 && u.path[0] == '/' && u.path[1] == '/'),
    }
    &&& forall|i: int| 0 <= i < u.path.len() ==> u.path[i] != '?' && (#[trigger] u.path[i]) != '#'
    &&& match u.query {
        Some(q) => forall|i: int| 0 <= i < q.len() ==> (#[trigger] q[i]) != '#',
        None => true,
    }
}

/// Append the characters of `s` to `out`.
fn append_str(out: &mut Vec<char>, s: &str)
    ensures
        final(out)@ == old(out)@ + s@,
{
    let v = chars_of(s);
    let mut i: usize = 0;
    while i < v.len()
        invariant
            i <= v@.len(),
            v@ == s@,
            out@ == old(out)@ + s@.take(i as int),
        decreases v@.len() - i,
    {
        out.push(v[i]);
        i = i + 1;
        proof {
            assert(out@ =~= old(out)@ + s@.take(i as int));
        }
    }
    proof {
        assert(old(out)@ + s@.take(s@.len() as int) =~= old(out)@ + s@);
    }
}

impl Url {
    /// The canonical text of this URL: scheme, authority, path, query and
    /// fragment, re-assembled.
    #[verifier::rlimit(60)]
    #[verifier::spinoff_prover]
    pub fn serialize(&self) -> (r: String)
        ensures
            r@ == spec_serialize(self@),
    {
        let mut out: Vec<char> = Vec::new();
        append_str(&mut out, self.scheme.as_str());
        out.push(':');
        match &self.host {
            Some(h) => {
                out.push('/');
                out.push('/');
                append_str(&mut out, h.as_str());
                match self.port {
                    Some(p) => {
                        out.push(':');
                        let pd = dec_digits(p);
                        let mut j: usize = 0;
                        let ghost mid = out@;
                        while j < pd.len()
                            invariant
                                j <= pd@.len(),
                                out@ == mid + pd@.take(j as int),
                            decreases pd@.len() - j,
                        {
                            out.push(pd[j]);
                            j = j + 1;
                            proof {
                                assert(out@ =~= mid + pd@.take(j as int));
                            }
                        }
                        proof {
                            assert(mid + pd@.take(pd@.len() as int) =~= mid + pd@);
                        }
                    },
                    None => {},
                }
            },
            None => {},
        }
        append_str(&mut out, self.path.as_str());
        match &self.query {
            Some(q) => {
                out.push('?');
                append_str(&mut out, q.as_str());
            },
            None => {},
        }
        match &self.fragment {
            Some(f) => {
                out.push('#');
                append_str(&mut out, f.as_str());
            },
            None => {},
        }
        proof {
            assert(out@ =~= spec_serialize(self@));
        }
        string_of(&out)
    }
}

/// Finding a character in a concatenation whose left half lacks it.
pub proof fn lemma_find_char_app(a: Seq<char>, b: Seq<char>, c: char)
    requires
        forall|j: int| 0 <= j < a.len() ==> a[j] != c,
    ensures
        find_char(a + b, c) == a.len() + find_char(b, c),
    decreases a.len(),
{
    if a.len() == 0 {
        assert(a + b =~= b);
    } else {
        assert((a + b)[0] == a[0]);
        assert((a + b).drop_first() =~= a.drop_first() + b);
        assert forall|j: int| 0 <= j < a.len() - 1 implies a.drop_first()[j] != c by {
            assert(a.drop_first()[j] == a[j + 1]);
        }
        lemma_find_char_app(a.drop_first(), b, c);
    }
}

/// Finding the authority end in a concatenation whose left half has none.
proof fn lemma_find_auth_end_app(a: Seq<char>, b: Seq<char>)
    requires
        forall|j: int| 0 <= j < a.len() ==> !is_auth_end(#[trigger] a[j]),
    ensures
        find_auth_end(a + b) == a.len() + find_auth_end(b),
    decreases a.len(),
{
    if a.len() == 0 {
        assert(a + b =~= b);
    } else {
        assert((a + b)[0] == a[0]);
        assert((a + b).drop_first() =~= a.drop_first() + b);
        assert forall|j: int| 0 <= j < a.len() - 1 implies !is_auth_end(
            #[trigger] a.drop_first()[j],
        ) by {
            assert(a.drop_first()[j] == a[j + 1]);
        }
        lemma_find_auth_end_app(a.drop_first(), b);
    }
}

/// Everything the grammar accepts is well-formed.
pub proof fn lemma_spec_parse_wf(s: Seq<char>)
    ensures
        spec_parse(s) matches Some(u) ==> wf(u),
{
    lemma_find_char(s, ':');
    let k = find_char(s, ':');
    if k < s.len() && valid_scheme(s.take(k)) {
        let sch0 = s.take(k);
        let scheme = lower_seq(sch0);
        assert forall|i: int| 0 <= i < scheme.len() implies is_scheme_char(
            #[trigger] scheme[i],
        ) by {
            assert(scheme[i] == lower_of(sch0[i]));
        }
        assert(is_alpha(scheme[0])) by {
            assert(scheme[0] == lower_of(sch0[0]));
        }
        assert(valid_scheme(scheme));
        assert(lower_seq(scheme) =~= scheme);
        let rest = s.skip(k + 1);
        if rest.len() >= 2 && rest[0] == '/' && rest[1] == '/' {
            let rest2 = rest.skip(2);
            lemma_find_auth_end(rest2);
            let ae = find_auth_end(rest2);
            let auth = rest2.take(ae);
            let tail = rest2.skip(ae);
            lemma_find_char(auth, ':');
            let pk = find_char(auth, ':');
            let host = auth.take(pk);
            assert forall|i: int| 0 <= i < host.len() implies !is_auth_end(#[trigger] host[i])
                && host[i] != ':' by {
                assert(host[i] == auth[i]);
                assert(auth[i] == rest2[i]);
            }
            lemma_pqf_wf(tail);
            if ae < rest2.len() {
                assert(is_auth_end(rest2[ae]));
                assert(tail.len() > 0 && is_auth_end(tail[0])) by {
                    assert(tail[0] == rest2[ae]);
                }
            }
            let p0 = pqf_path(tail);
            if p0.len() > 0 {
                assert(p0[0] == tail[0]);
                assert(p0[0] == '/');
            }
        } else {
            lemma_pqf_wf(rest);
            let p0 = pqf_path(rest);
            if p0.len() >= 2 {
                assert(p0[0] == rest[0] && p0[1] == rest[1]);
            }
        }
    }
}

/// The path/query/fragment split yields pieces free of their delimiters,
/// and the path is a prefix of the text.
proof fn lemma_pqf_wf(t: Seq<char>)
    ensures
        forall|i: int|
            0 <= i < pqf_path(t).len() ==> pqf_path(t)[i] != '?' && (#[trigger] pqf_path(
                t,
            )[i]) != '#' && pqf_path(t)[i] == t[i],
        pqf_query(t) matches Some(q) ==> forall|i: int|
            0 <= i < q.len() ==> (#[trigger] q[i]) != '#',
        pqf_path(t).len() <= t.len(),
{
    lemma_find_char(t, '#');
    let h = find_char(t, '#');
    let before = t.take(h);
    lemma_find_char(before, '?');
    let q = find_char(before, '?');
    assert forall|i: int|
        0 <= i < pqf_path(t).len() implies pqf_path(t)[i] != '?' && (#[trigger] pqf_path(
        t,
    )[i]) != '#' && pqf_path(t)[i] == t[i] by {
        assert(pqf_path(t)[i] == before[i]);
        assert(before[i] == t[i]);
    }
    if q < before.len() {
        let quer = before.skip(q + 1);
        assert forall|i: int| 0 <= i < quer.len() implies (#[trigger] quer[i]) != '#' by {
            assert(quer[i] == before[q + 1 + i]);
            assert(before[q + 1 + i] == t[q + 1 + i]);
        }
    }
}

/// Serializing a well-formed URL gives text the grammar parses back to the
/// same value.
pub proof fn lemma_serialize_parse(u: UrlView)
    requires
        wf(u),
    ensures
        spec_parse(spec_serialize(u)) == Some(u),
{
    match u.host {
        Some(h) => {
            lemma_serialize_parse_with_host(u, h);
        },
        None => {
            lemma_serialize_parse_no_host(u);
        },
    }
}

/// The serialized query-and-fragment tail of a URL.
spec fn qpart_of(u: UrlView) -> Seq<char> {
    match u.query {
        Some(q) => seq!['?'] + q,
        None => Seq::empty(),
    }
}

spec fn fpart_of(u: UrlView) -> Seq<char> {
    match u.fragment {
        Some(f) => seq!['#'] + f,
        None => Seq::empty(),
    }
}

spec fn portpart_of(u: UrlView) -> Seq<char> {
    match u.port {
        Some(p) => seq![':'] + dec_rep(p as int),
        None => Seq::empty(),
    }
}

/// The scheme is recovered from the serialization, and the remainder
/// follows the colon.
#[verifier::spinoff_prover]
proof fn lemma_serialize_scheme(u: UrlView, rest_ser: Seq<char>)
    requires
        wf(u),
        spec_serialize(u) == u.scheme + (seq![':'] + rest_ser),
    ensures
        find_char(spec_serialize(u), ':') == u.scheme.len(),
        spec_serialize(u).take(u.scheme.len() as int) == u.scheme,
        lower_seq(spec_serialize(u).take(u.scheme.len() as int)) == u.scheme,
        valid_scheme(spec_serialize(u).take(u.scheme.len() as int)),
        spec_serialize(u).skip(u.scheme.len() as int + 1) == rest_ser,
{
    let s = spec_serialize(u);
    assert forall|j: int| 0 <= j < u.scheme.len() implies u.scheme[j] != ':' by {
        assert(is_scheme_char(u.scheme[j]));
    }
    lemma_find_char_app(u.scheme, seq![':'] + rest_ser, ':');
    assert((seq![':'] + rest_ser)[0] == ':');
    assert(s.take(u.scheme.len() as int) =~= u.scheme);
    assert(s.skip(u.scheme.len() as int + 1) =~= rest_ser);
}

/// No digit and no colon-free host character ends an authority; the port
/// text stays clean too.
#[verifier::spinoff_prover]
proof fn lemma_portpart_clean(u: UrlView)
    requires
        wf(u),
    ensures
        forall|j: int|
            0 <= j < portpart_of(u).len() ==> !is_auth_end(#[trigger] portpart_of(u)[j]),
        forall|j: int| 0 < j < portpart_of(u).len() ==> portpart_of(u)[j] != ':',
        u.port is Some ==> portpart_of(u)[0] == ':',
{
    match u.port {
        Some(p) => {
            lemma_dec_rep(p as int);
            let pp = portpart_of(u);
            assert forall|j: int| 0 <= j < pp.len() implies !is_auth_end(#[trigger] pp[j]) && (j
                > 0 ==> pp[j] != ':') by {
                if j > 0 {
                    assert(pp[j] == dec_rep(p as int)[j - 1]);
                    assert(is_digit(dec_rep(p as int)[j - 1]));
                }
            }
        },
        None => {},
    }
}

/// Serialize-then-parse for URLs that carry an authority.
#[verifier::rlimit(100)]
#[verifier::spinoff_prover]
proof fn lemma_serialize_parse_with_host(u: UrlView, h: Seq<char>)
    requires
        wf(u),
        u.host == Some(h),
    ensures
        spec_parse(spec_serialize(u)) == Some(u),
{
    let s = spec_serialize(u);
    let portpart = portpart_of(u);
    let qpart = qpart_of(u);
    let fpart = fpart_of(u);
    let rest_ser = (seq!['/', '/'] + h + portpart) + u.path + qpart + fpart;
    assert(s =~= u.scheme + (seq![':'] + rest_ser));
    lemma_serialize_scheme(u, rest_ser);
    let k = u.scheme.len() as int;
    let rest = s.skip(k + 1);
    lemma_portpart_clean(u);
    assert(rest.len() >= 2 && rest[0] == '/' && rest[1] == '/') by {
        assert(rest[0] == (seq!['/', '/'] + h + portpart)[0]);
        assert(rest[1] == (seq!['/', '/'] + h + portpart)[1]);
    }
    let rest2 = rest.skip(2);
    let a = h + portpart;
    assert(rest2 =~= a + (u.path + qpart + fpart));
    assert forall|j: int| 0 <= j < a.len() implies !is_auth_end(#[trigger] a[j]) by {
        if j < h.len() {
            assert(a[j] == h[j]);
        } else {
            assert(a[j] == portpart[j - h.len()]);
        }
    }
    lemma_find_auth_end_app(a, u.path + qpart + fpart);
    assert((u.path + qpart + fpart)[0] == u.path[0]);
    assert(find_auth_end(u.path + qpart + fpart) == 0);
    let ae = find_auth_end(rest2);
    assert(ae == a.len());
    let auth = rest2.take(ae);
    assert(auth =~= a);
    let tail = rest2.skip(ae);
    assert(tail =~= u.path + qpart + fpart);
    lemma_pqf_split(u.path, qpart, fpart, u.query, u.fragment);
    assert(pqf_path(tail) == u.path && pqf_query(tail) == u.query && pqf_fragment(tail)
        == u.fragment);
    let pk = find_char(auth, ':');
    match u.port {
        Some(p) => {
            assert(auth =~= h + (seq![':'] + dec_rep(p as int)));
            assert forall|j: int| 0 <= j < h.len() implies h[j] != ':' by {}
            lemma_find_char_app(h, seq![':'] + dec_rep(p as int), ':');
            assert((seq![':'] + dec_rep(p as int))[0] == ':');
            assert(pk == h.len());
            assert(pk < auth.len());
            assert(auth.take(pk) =~= h);
            let ps = auth.skip(pk + 1);
            assert(ps =~= dec_rep(p as int));
            lemma_dec_rep(p as int);
            assert(ps.len() > 0 && all_digits(ps) && dec_val(ps) == p as int);
            assert(dec_val(ps) as u16 == p);
            let got = spec_parse(s)->Some_0;
            lemma_views_equal(got, u);
        },
        None => {
            assert(auth =~= h);
            lemma_find_char_no_hit(auth, ':');
            assert(pk == auth.len());
            assert(auth.take(pk) =~= h);
            let got = spec_parse(s)->Some_0;
            lemma_views_equal(got, u);
        },
    }
}

/// Serialize-then-parse for URLs without an authority.
#[verifier::rlimit(100)]
#[verifier::spinoff_prover]
proof fn lemma_serialize_parse_no_host(u: UrlView)
    requires
        wf(u),
        u.host is None,
    ensures
        spec_parse(spec_serialize(u)) == Some(u),
{
    let s = spec_serialize(u);
    let qpart = qpart_of(u);
    let fpart = fpart_of(u);
    let rest_ser = u.path + qpart + fpart;
    assert(s =~= u.scheme + (seq![':'] + rest_ser));
    lemma_serialize_scheme(u, rest_ser);
    let k = u.scheme.len() as int;
    let rest = s.skip(k + 1);
    assert(!(rest.len() >= 2 && rest[0] == '/' && rest[1] == '/')) by {
        if rest.len() >= 2 {
            if u.path.len() >= 2 {
                assert(rest[0] == u.path[0] && rest[1] == u.path[1]);
            } else if u.path.len() == 1 {
                assert(rest[0] == u.path[0]);
                assert(rest[1] == (qpart + fpart)[0]);
                if qpart.len() > 0 {
                    assert((qpart + fpart)[0] == '?');
                } else {
                    assert((qpart + fpart)[0] == fpart[0]);
                    assert(fpart[0] == '#');
                }
            } else {
                assert(rest[0] == (qpart + fpart)[0]);
                if qpart.len() > 0 {
                    assert((qpart + fpart)[0] == '?');
                } else {
                    assert((qpart + fpart)[0] == fpart[0]);
                    assert(fpart[0] == '#');
                }
            }
        }
    }
    lemma_pqf_split(u.path, qpart, fpart, u.query, u.fragment);
    assert(pqf_path(rest) == u.path && pqf_query(rest) == u.query && pqf_fragment(rest)
        == u.fragment);
    let got = spec_parse(s)->Some_0;
    lemma_views_equal(got, u);
}

/// Two URL values with equal fields are equal.
proof fn lemma_views_equal(a: UrlView, b: UrlView)
    requires
        a.scheme == b.scheme,
        a.host == b.host,
        a.port == b.port,
        a.path == b.path,
        a.query == b.query,
        a.fragment == b.fragment,
    ensures
        a == b,
{
}

/// Splitting `path + qpart + fpart` recovers path, query and fragment,
/// provided the path is free of `?` and `#` and the query free of `#`.
proof fn lemma_pqf_split(
    path: Seq<char>,
    qpart: Seq<char>,
    fpart: Seq<char>,
    query: Option<Seq<char>>,
    fragment: Option<Seq<char>>,
)
    requires
        forall|i: int| 0 <= i < path.len() ==> path[i] != '?' && (#[trigger] path[i]) != '#',
        match query {
            Some(q) => qpart == seq!['?'] + q && forall|i: int|
                0 <= i < q.len() ==> (#[trigger] q[i]) != '#',
            None => qpart == Seq::<char>::empty(),
        },
        match fragment {
            Some(f) => fpart == seq!['#'] + f,
            None => fpart == Seq::<char>::empty(),
        },
    ensures
        pqf_path(path + qpart + fpart) == path,
        pqf_query(path + qpart + fpart) == query,
        pqf_fragment(path + qpart + fpart) == fragment,
{
    let t = path + qpart + fpart;
    let bq = path + qpart;
    assert forall|j: int| 0 <= j < bq.len() implies (#[trigger] bq[j]) != '#' by {
        if j < path.len() {
            assert(bq[j] == path[j]);
        } else {
            assert(bq[j] == qpart[j - path.len()]);
            match query {
                Some(q) => {
                    if j > path.len() {
                        assert(qpart[j - path.len()] == q[j - path.len() - 1]);
                    }
                },
                None => {},
            }
        }
    }
    assert(t =~= bq + fpart);
    lemma_find_char_app(bq, fpart, '#');
    let h = find_char(t, '#');
    match fragment {
        Some(f) => {
            assert(fpart[0] == '#');
            assert(find_char(fpart, '#') == 0);
            assert(h == bq.len());
            assert(h < t.len());
            assert(t.skip(h + 1) =~= f);
        },
        None => {
            assert(fpart =~= Seq::<char>::empty());
            assert(h == t.len());
        },
    }
    let before = t.take(h);
    assert(before =~= bq);
    lemma_find_char_app(path, qpart, '?');
    assert(before =~= path + qpart);
    let q = find_char(before, '?');
    match query {
        Some(qu) => {
            assert(qpart[0] == '?');
            assert(find_char(qpart, '?') == 0);
            assert(q == path.len());
            assert(q < before.len());
            assert(before.skip(q + 1) =~= qu);
            assert(before.take(q) =~= path);
        },
        None => {
            assert(qpart =~= Seq::<char>::empty());
            assert(q == before.len());
            assert(before.take(q) =~= path);
        },
    }
}

/// Round trip: a string the grammar accepts re-serializes to text the
/// grammar parses back to the identical structured value.
pub proof fn lemma_parse_serialize_round_trip(s: Seq<char>, u: UrlView)
    requires
        spec_parse(s) == Some(u),
    ensures
        wf(u),
        spec_parse(spec_serialize(u)) == Some(u),
{
    lemma_spec_parse_wf(s);
    lemma_serialize_parse(u);
}

/// Does the input parse as a URL?
pub fn validate_url(url_str: &str) -> (r: bool)
    ensures
        r == (spec_parse(url_str@) is Some),
{
    match parse(url_str) {
        Ok(_) => true,
        Err(_) => false,
    }
}

/// The host of a URL, when it parses and carries one.
pub fn get_url_domain(url_str: &str) -> (r: Option<String>)
    ensures
        match r {
            Some(h) => spec_parse(url_str@) matches Some(u) && u.host == Some(h@),
            None => spec_parse(url_str@) is None || spec_parse(url_str@)->Some_0.host is None,
        },
{
    match parse(url_str) {
        Ok(u) => u.host,
        Err(_) => None,
    }
}

/// The path of a URL, when it parses.
pub fn get_url_path(url_str: &str) -> (r: Option<String>)
    ensures
        match r {
            Some(p) => spec_parse(url_str@) matches Some(u) && u.path == p@,
            None => spec_parse(url_str@) is None,
        },
{
    match parse(url_str) {
        Ok(u) => Some(u.path),
        Err(_) => None,
    }
}

/// The raw query of a URL, when it parses and has one.
pub fn get_url_query(url_str: &str) -> (r: Option<String>)
    ensures
        match r {
            Some(q) => spec_parse(url_str@) matches Some(u) && u.query == Some(q@),
            None => spec_parse(url_str@) is None || spec_parse(url_str@)->Some_0.query is None,
        },
{
    match parse(url_str) {
        Ok(u) => u.query,
        Err(_) => None,
    }
}

/// The fragment of a URL, when it parses and has one.
pub fn get_url_fragment(url_str: &str) -> (r: Option<String>)
    ensures
        match r {
            Some(f) => spec_parse(url_str@) matches Some(u) && u.fragment == Some(f@),
            None => spec_parse(url_str@) is None || spec_parse(url_str@)->Some_0.fragment
                is None,
        },
{
    match parse(url_str) {
        Ok(u) => u.fragment,
        Err(_) => None,
    }
}

/// The explicit, non-default port of a URL, when it parses and has one.
pub fn get_url_port(url_str: &str) -> (r: Option<u16>)
    ensures
        match r {
            Some(p) => spec_parse(url_str@) matches Some(u) && u.port == Some(p),
            None => spec_parse(url_str@) is None || spec_parse(url_str@)->Some_0.port is None,
        },
{
    match parse(url_str) {
        Ok(u) => u.port,
        Err(_) => None,
    }
}

/// The lowercased scheme of a URL, when it parses.
pub fn get_url_scheme(url_str: &str) -> (r: Option<String>)
    ensures
        match r {
            Some(s) => spec_parse(url_str@) matches Some(u) && u.scheme == s@,
            None => spec_parse(url_str@) is None,
        },
{
    match parse(url_str) {
        Ok(u) => Some(u.scheme),
        Err(_) => None,
    }
}

/// The pieces of a piece sequence that are nonempty, in order.
pub open spec fn nonempty_pieces(ps: Seq<Seq<char>>) -> Seq<Seq<char>>
    decreases ps.len(),
{
    if ps.len() == 0 {
        Seq::empty()
    } else if ps[ps.len() - 1].len() > 0 {
        nonempty_pieces(ps.drop_last()).push(ps[ps.len() - 1])
    } else {
        nonempty_pieces(ps.drop_last())
    }
}

/// The path segments of a URL: the path split on `/`, empty segments
/// discarded.
pub fn get_path_segments(url_str: &str) -> (r: Result<Vec<String>, ParseError>)
    ensures
        match r {
            Ok(segs) => spec_parse(url_str@) matches Some(u) && segs.deep_view()
                == nonempty_pieces(crate::strutil::split_char(u.path, '/')),
            Err(_) => spec_parse(url_str@) is None,
        },
{
    let u = match parse(url_str) {
        Ok(u) => u,
        Err(e) => {
            return Err(e);
        },
    };
    let pv = chars_of(u.path.as_str());
    let pieces = crate::strutil::split_chars(&pv, '/');
    let ghost ps = crate::strutil::split_char(u.path@, '/');
    let mut segs: Vec<String> = Vec::new();
    let mut i: usize = 0;
    proof {
        assert(ps.take(0) =~= Seq::<Seq<char>>::empty());
    }
    while i < pieces.len()
        invariant
            i <= pieces@.len(),
            pieces.deep_view() == ps,
            segs.deep_view() == nonempty_pieces(ps.take(i as int)),
        decreases pieces@.len() - i,
    {
        proof {
            assert(ps.take(i + 1).drop_last() =~= ps.take(i as int));
            assert(ps.take(i + 1)[i as int] == ps[i as int]);
            assert(pieces@[i as int]@ == ps[i as int]);
        }
        if pieces[i].len() > 0 {
            let ghost before = segs.deep_view();
            segs.push(string_of(&pieces[i]));
            proof {
                assert(segs.deep_view() =~~= before.push(ps[i as int]));
            }
        }
        i = i + 1;
    }
    proof {
        assert(ps.take(ps.len() as int) =~= ps);
    }
    Ok(segs)
}

/// The origin triple of a URL: scheme, host and effective port.
pub struct Origin {
    pub scheme: String,
    pub host: Option<String>,
    pub port: Option<u16>,
}

/// The effective port: the explicit one, or the scheme's default.
pub open spec fn effective_port(u: UrlView) -> Option<u16> {
    match u.port {
        Some(p) => Some(p),
        None => default_port(u.scheme),
    }
}

/// Two parsed URLs share an origin when scheme, host and effective port
/// all agree.
pub open spec fn same_origin_of(a: UrlView, b: UrlView) -> bool {
    a.scheme == b.scheme && a.host == b.host && effective_port(a) == effective_port(b)
}

/// The origin of a URL, when it parses.
pub fn origin_of(url_str: &str) -> (r: Result<Origin, ParseError>)
    ensures
        match r {
            Ok(o) => spec_parse(url_str@) matches Some(u) && o.scheme@ == u.scheme && (match o
                .host {
                Some(h) => u.host == Some(h@),
                None => u.host is None,
            }) && o.port == effective_port(u),
            Err(_) => spec_parse(url_str@) is None,
        },
{
    let u = match parse(url_str) {
        Ok(u) => u,
        Err(e) => {
            return Err(e);
        },
    };
    let sv = chars_of(u.scheme.as_str());
    let port = match u.port {
        Some(p) => Some(p),
        None => default_port_of(&sv),
    };
    Ok(Origin { scheme: u.scheme, host: u.host, port })
}

/// Do two URLs share scheme, host and effective port?
pub fn same_origin(url1: &str, url2: &str) -> (r: Result<bool, ParseError>)
    ensures
        match r {
            Ok(b) => {
                &&& spec_parse(url1@) is Some
                &&& spec_parse(url2@) is Some
                &&& b == same_origin_of(spec_parse(url1@)->Some_0, spec_parse(url2@)->Some_0)
            },
            Err(_) => spec_parse(url1@) is None || spec_parse(url2@) is None,
        },
{
    let a = match parse(url1) {
        Ok(u) => u,
        Err(e) => {
            return Err(e);
        },
    };
    let b = match parse(url2) {
        Ok(u) => u,
        Err(e) => {
            return Err(e);
        },
    };
    if !a.scheme.eq(&b.scheme) {
        return Ok(false);
    }
    let hosts_eq: bool = match (&a.host, &b.host) {
        (Some(x), Some(y)) => x.eq(y),
        (None, None) => true,
        _ => false,
    };
    if !hosts_eq {
        return Ok(false);
    }
    let av = chars_of(a.scheme.as_str());
    let bv = chars_of(b.scheme.as_str());
    let pa = match a.port {
        Some(p) => Some(p),
        None => default_port_of(&av),
    };
    let pb = match b.port {
        Some(p) => Some(p),
        None => default_port_of(&bv),
    };
    let ports_eq: bool = match (pa, pb) {
        (Some(x), Some(y)) => x == y,
        (None, None) => true,
        _ => false,
    };
    Ok(ports_eq)
}

} // verus!
