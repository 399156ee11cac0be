//! Reference resolution: joining a relative reference against a base URL.
//!
//! An absolute reference replaces the base entirely; `//host/...` keeps
//! only the base scheme; a rooted path replaces the base path; `?` and `#`
//! references keep the base path; anything else resolves against the
//! base's directory, with `.` and `..` segments collapsed.

use vstd::prelude::*;
use vstd::string::*;
use crate::strutil::chars_of;
use crate::strutil::find_char;
use crate::strutil::find_last_char;
use crate::strutil::lemma_find_char_no_hit;
use crate::strutil::lemma_find_char_prefix_hit;
use crate::strutil::lemma_find_last_char_hit;
use crate::strutil::lemma_find_last_char;
use crate::strutil::split_char;
use crate::strutil::split_chars;
use crate::strutil::string_of;
use crate::strutil::subvec;
use crate::strutil::alnum_char;
use crate::strutil::alpha_char;
use crate::url::JoinError;
use crate::url::Url;
use crate::url::UrlView;
use crate::url::parse;
use crate::url::pqf_fragment;
use crate::url::pqf_path;
use crate::url::pqf_query;
use crate::url::spec_parse;
use crate::url::spec_serialize;
use crate::url::valid_scheme;

verus! {

broadcast use vstd::string::group_string_axioms;

/// Does the reference begin with a valid scheme and a colon?
pub open spec fn has_scheme_prefix(r: Seq<char>) -> bool {
    find_char(r, ':') < r.len() && valid_scheme(r.take(find_char(r, ':')))
}

/// One step of dot-segment collapsing: `..` pops a segment, `.` is
/// dropped, and both leave a trailing empty segment when they end the
/// path; any other segment is kept.
pub open spec fn seg_step(stack: Seq<Seq<char>>, seg: Seq<char>, last: bool) -> Seq<Seq<char>> {
    if seg == seq!['.', '.'] {
        let popped = if stack.len() > 0 {
            stack.drop_last()
        } else {
            stack
        };
        if last {
            popped.push(Seq::empty())
        } else {
            popped
        }
    } else if seg == seq!['.'] {
        if last {
            stack.push(Seq::empty())
        } else {
            stack
        }
    } else {
        stack.push(seg)
    }
}

/// Collapse the segments from index `i` onward onto a stack.
pub open spec fn collapse_from(segs: Seq<Seq<char>>, i: int, stack: Seq<Seq<char>>) -> Seq<
    Seq<char>,
>
    decreases segs.len() - i,
{
    if i < 0 || i >= segs.len() {
        stack
    } else {
        collapse_from(segs, i + 1, seg_step(stack, segs[i], i == segs.len() - 1))
    }
}

/// Write segments back as a rooted path: one `/` before each segment.
pub open spec fn join_segs(segs: Seq<Seq<char>>) -> Seq<char>
    decreases segs.len(),
{
    if segs.len() == 0 {
        Seq::empty()
    } else {
        join_segs(segs.drop_last()) + seq!['/'] + segs[segs.len() - 1]
    }
}

/// A rooted path with its `.` and `..` segments collapsed.
pub open spec fn collapse_path(p: Seq<char>) -> Seq<char> {
    join_segs(collapse_from(split_char(p.skip(1), '/'), 0, Seq::empty()))
}

/// The directory of the base path: everything up to and including its
/// last slash.
pub open spec fn dir_of(p: Seq<char>) -> Seq<char> {
    p.take(find_last_char(p, '/') + 1)
}

/// The resolved text of a reference that stands on its own: when it
/// carries an authority or a rooted path, its dot segments are collapsed
/// as reference resolution requires; an opaque path is kept as written.
pub open spec fn resolved_text(ru: UrlView) -> Seq<char> {
    if ru.host is Some || (ru.path.len() > 0 && ru.path[0] == '/') {
        spec_serialize(UrlView { path: collapse_path(ru.path), ..ru })
    } else {
        spec_serialize(ru)
    }
}

/// Reference resolution over mathematical strings.
pub open spec fn spec_join(b: Seq<char>, r: Seq<char>) -> Result<Seq<char>, JoinError> {
    if spec_parse(b) is None {
        Err(JoinError::InvalidBase)
    } else {
        let bu = spec_parse(b)->Some_0;
        if has_scheme_prefix(r) {
            match spec_parse(r) {
                Some(ru) => Ok(resolved_text(ru)),
                None => Err(JoinError::InvalidRelative),
            }
        } else if r.len() >= 2 && r[0] == '/' && r[1] == '/' {
            match spec_parse(bu.scheme + seq![':'] + r) {
                Some(ru) => Ok(resolved_text(ru)),
                None => Err(JoinError::InvalidRelative),
            }
        } else if r.len() == 0 {
            Ok(spec_serialize(UrlView { fragment: None, ..bu }))
        } else if r[0] == '#' {
            Ok(spec_serialize(UrlView { fragment: Some(r.skip(1)), ..bu }))
        } else if r[0] == '?' {
            Ok(
                spec_serialize(
                    UrlView { query: pqf_query(r), fragment: pqf_fragment(r), ..bu },
                ),
            )
        } else if bu.host is None && !(bu.path.len() > 0 && bu.path[0] == '/') {
            Err(JoinError::InvalidRelative)
        } else if r[0] == '/' {
            Ok(
                spec_serialize(
                    UrlView {
                        path: collapse_path(pqf_path(r)),
                        query: pqf_query(r),
                        fragment: pqf_fragment(r),
                        ..bu
                    },
                ),
            )
        } else {
            Ok(
                spec_serialize(
                    UrlView {
                        path: collapse_path(dir_of(bu.path) + pqf_path(r)),
                        query: pqf_query(r),
                        fragment: pqf_fragment(r),
                        ..bu
                    },
                ),
            )
        }
    }
}

/// Collapse a rooted path, executably.
fn collapse_exec(p: &Vec<char>) -> (r: Vec<char>)
    requires
        p@.len() > 0,
    ensures
        r@ == collapse_path(p@),
{
    let body = subvec(p, 1, p.len());
    proof {
        assert(body@ =~= p@.skip(1));
    }
    let segs = split_chars(&body, '/');
    let ghost sg = split_char(p@.skip(1), '/');
    let mut stack: Vec<Vec<char>> = Vec::new();
    let mut i: usize = 0;
    proof {
        assert(stack.deep_view() =~= Seq::<Seq<char>>::empty());
    }
    while i < segs.len()
        invariant
            i <= segs@.len(),
            segs.deep_view() == sg,
            collapse_from(sg, 0, Seq::empty()) == collapse_from(sg, i as int, stack.deep_view()),
        decreases segs@.len() - i,
    {
        let seg = &segs[i];
        proof {
            assert(segs@[i as int]@ == sg[i as int]);
        }
        let last = i == segs.len() - 1;
        let ghost before = stack.deep_view();
        if seg.len() == 2 && seg[0] == '.' && seg[1] == '.' {
            proof {
                assert(sg[i as int] =~= seq!['.', '.']);
            }
            if stack.len() > 0 {
                stack.pop();
            }
            proof {
                if before.len() > 0 {
                    assert(stack.deep_view() =~~= before.drop_last());
                }
            }
            if last {
                let empty_seg: Vec<char> = Vec::new();
                let ghost mid = stack.deep_view();
                stack.push(empty_seg);
                proof {
                    assert(stack.deep_view() =~~= mid.push(Seq::empty()));
                }
            }
        } else if seg.len() == 1 && seg[0] == '.' {
            proof {
                assert(sg[i as int] =~= seq!['.']);
            }
            if last {
                let empty_seg: Vec<char> = Vec::new();
                stack.push(empty_seg);
                proof {
                    assert(stack.deep_view() =~~= before.push(Seq::empty()));
                }
            }
        } else {
            proof {
                assert(sg[i as int] != seq!['.', '.']) by {
                    if sg[i as int] == seq!['.', '.'] {
                        assert(sg[i as int].len() == 2);
                        assert(sg[i as int][0] == '.' && sg[i as int][1] == '.');
                    }
                }
                assert(sg[i as int] != seq!['.']) by {
                    if sg[i as int] == seq!['.'] {
                        assert(sg[i as int].len() == 1);
                        assert(sg[i as int][0] == '.');
                    }
                }
            }
            let kept = subvec(seg, 0, seg.len());
            proof {
                assert(kept@ =~= sg[i as int]);
            }
            stack.push(kept);
            proof {
                assert(stack.deep_view() =~~= before.push(sg[i as int]));
            }
        }
        proof {
            assert(stack.deep_view() == seg_step(before, sg[i as int], i == sg.len() - 1));
        }
        i = i + 1;
    }
    let ghost done = collapse_from(sg, 0, Seq::empty());
    proof {
        assert(done == stack.deep_view());
    }
    let mut out: Vec<char> = Vec::new();
    let mut k: usize = 0;
    proof {
        assert(stack.deep_view().take(0) =~= Seq::<Seq<char>>::empty());
        assert(out@ =~= join_segs(stack.deep_view().take(0)));
    }
    while k < stack.len()
        invariant
            k <= stack@.len(),
            stack.deep_view() == done,
            out@ == join_segs(done.take(k as int)),
        decreases stack@.len() - k,
    {
        out.push('/');
        let ghost mid = out@;
        let seg = &stack[k];
        proof {
            assert(stack@[k as int]@ == done[k as int]);
        }
        let mut t: usize = 0;
        while t < seg.len()
            invariant
                t <= seg@.len(),
                out@ == mid + seg@.take(t as int),
            decreases seg@.len() - t,
        {
            out.push(seg[t]);
            t = t + 1;
            proof {
                assert(out@ =~= mid + seg@.take(t as int));
            }
        }
        k = k + 1;
        proof {
            assert(seg@.take(seg@.len() as int) =~= seg@);
            assert(done.take(k as int).drop_last() =~= done.take(k - 1));
            assert(done.take(k as int)[k - 1] == done[k - 1]);
            assert(out@ =~= join_segs(done.take(k as int)));
        }
    }
    proof {
        assert(done.take(done.len() as int) =~= done);
    }
    out
}

/// Serialize a parsed reference with its dot segments collapsed, as
/// `resolved_text` describes.
fn serialize_resolved(ru: Url) -> (r: String)
    requires
        ru@.host is Some ==> ru@.path.len() > 0,
    ensures
        r@ == resolved_text(ru@),
{
    let pv = chars_of(ru.path.as_str());
    let rooted: bool = match &ru.host {
        Some(_) => true,
        None => pv.len() > 0 && pv[0] == '/',
    };
    if rooted {
        let collapsed = collapse_exec(&pv);
        let nu = Url {
            scheme: ru.scheme,
            host: ru.host,
            port: ru.port,
            path: string_of(&collapsed),
            query: ru.query,
            fragment: ru.fragment,
        };
        nu.serialize()
    } else {
        ru.serialize()
    }
}

/// Does the reference carry a scheme of its own?
fn scheme_prefixed(v: &Vec<char>) -> (r: bool)
    ensures
        r == has_scheme_prefix(v@),
{
    let n = v.len();
    let mut k: usize = 0;
    while k < n && v[k] != ':'
        invariant
            k <= n,
            n == v@.len(),
            forall|j: int| 0 <= j < k ==> v@[j] != ':',
        decreases n - k,
    {
        k = k + 1;
    }
    proof {
        if k < n {
            lemma_find_char_prefix_hit(v@, ':', k as int);
        } else {
            lemma_find_char_no_hit(v@, ':');
        }
    }
    if k == n {
        return false;
    }
    if k == 0 || !alpha_char(v[0]) {
        proof {
            assert(v@.take(k as int).len() == k);
            if k > 0 {
                assert(v@.take(k as int)[0] == v@[0]);
            }
        }
        return false;
    }
    let mut i: usize = 0;
    while i < k
        invariant
            i <= k,
            k < n,
            n == v@.len(),
            forall|j: int| 0 <= j < i ==> crate::url::is_scheme_char(#[trigger] v@[j]),
        decreases k - i,
    {
        let c = v[i];
        if !(alnum_char(c) || c == '+' || c == '-' || c == '.') {
            proof {
                assert(v@.take(k as int)[i as int] == v@[i as int]);
            }
            return false;
        }
        i = i + 1;
    }
    proof {
        assert forall|j: int| 0 <= j < k implies crate::url::is_scheme_char(
            #[trigger] v@.take(k as int)[j],
        ) by {
            assert(v@.take(k as int)[j] == v@[j]);
        }
        assert(v@.take(k as int)[0] == v@[0]);
    }
    true
}

/// Resolve `relative` against `base`.  `Err(InvalidBase)` when the base
/// does not parse; `Err(InvalidRelative)` when the reference claims a
/// scheme or authority that does not parse, or is a path reference
/// against a base without a rooted path.
pub fn join_url(base: &str, relative: &str) -> (r: Result<String, JoinError>)
    ensures
        match r {
            Ok(s) => spec_join(base@, relative@) == Ok::<Seq<char>, JoinError>(s@),
            Err(e) => spec_join(base@, relative@) == Err::<Seq<char>, JoinError>(e),
        },
{
    let bu = match parse(base) {
        Ok(u) => u,
        Err(_) => {
            return Err(JoinError::InvalidBase);
        },
    };
    let rv = chars_of(relative);
    if scheme_prefixed(&rv) {
        match parse(relative) {
            Ok(ru) => {
                proof {
                    crate::url::lemma_spec_parse_wf(relative@);
                }
                return Ok(serialize_resolved(ru));
            },
            Err(_) => {
                return Err(JoinError::InvalidRelative);
            },
        }
    }
    if rv.len() >= 2 && rv[0] == '/' && rv[1] == '/' {
        let sv = chars_of(bu.scheme.as_str());
        let mut full: Vec<char> = Vec::new();
        let mut i: usize = 0;
        while i < sv.len()
            invariant
                i <= sv@.len(),
                full@ == sv@.take(i as int),
            decreases sv@.len() - i,
        {
            full.push(sv[i]);
            i = i + 1;
            proof {
                assert(full@ =~= sv@.take(i as int));
            }
        }
        full.push(':');
        let mut j: usize = 0;
        while j < rv.len()
            invariant
                j <= rv@.len(),
                full@ == sv@.take(sv@.len() as int).push(':') + rv@.take(j as int),
            decreases rv@.len() - j,
        {
            full.push(rv[j]);
            j = j + 1;
            proof {
                assert(full@ =~= sv@.take(sv@.len() as int).push(':') + rv@.take(j as int));
            }
        }
        proof {
            assert(full@ =~= bu@.scheme + seq![':'] + relative@);
        }
        let full_s = string_of(&full);
        match parse(full_s.as_str()) {
            Ok(ru) => {
                proof {
                    crate::url::lemma_spec_parse_wf(full_s@);
                }
                return Ok(serialize_resolved(ru));
            },
            Err(_) => {
                return Err(JoinError::InvalidRelative);
            },
        }
    }
    if rv.len() == 0 {
        let nu = Url {
            scheme: bu.scheme,
            host: bu.host,
            port: bu.port,
            path: bu.path,
            query: bu.query,
            fragment: None,
        };
        return Ok(nu.serialize());
    }
    if rv[0] == '#' {
        let fv = subvec(&rv, 1, rv.len());
        proof {
            assert(fv@ =~= relative@.skip(1));
        }
        let nu = Url {
            scheme: bu.scheme,
            host: bu.host,
            port: bu.port,
            path: bu.path,
            query: bu.query,
            fragment: Some(string_of(&fv)),
        };
        return Ok(nu.serialize());
    }
    if rv[0] == '?' {
        let (_, quer, frag) = crate::url::split_pqf(&rv, 0);
        proof {
            assert(rv@.skip(0) =~= relative@);
        }
        let nu = Url {
            scheme: bu.scheme,
            host: bu.host,
            port: bu.port,
            path: bu.path,
            query: match quer {
                Some(q) => Some(string_of(&q)),
                None => None,
            },
            fragment: match frag {
                Some(f) => Some(string_of(&f)),
                None => None,
            },
        };
        return Ok(nu.serialize());
    }
    let rooted: bool = match &bu.host {
        Some(_) => true,
        None => {
            let pv0 = chars_of(bu.path.as_str());
            pv0.len() > 0 && pv0[0] == '/'
        },
    };
    proof {
        crate::url::lemma_spec_parse_wf(base@);
    }
    if !rooted {
        return Err(JoinError::InvalidRelative);
    }
    let (relpath, quer, frag) = crate::url::split_pqf(&rv, 0);
    proof {
        assert(rv@.skip(0) =~= relative@);
    }
    let merged: Vec<char>;
    if rv[0] == '/' {
        merged = relpath;
        proof {
            let t = relative@;
            crate::strutil::lemma_find_char(t, '#');
            crate::strutil::lemma_find_char(t.drop_first(), '#');
            let h = find_char(t, '#');
            assert(h >= 1);
            let before = t.take(h);
            crate::strutil::lemma_find_char(before, '?');
            crate::strutil::lemma_find_char(before.drop_first(), '?');
            assert(before[0] == '/');
            assert(find_char(before, '?') >= 1);
            assert(merged@.len() > 0);
        }
    } else {
        let pv = chars_of(bu.path.as_str());
        let n = pv.len();
        let mut d: usize = n;
        let mut j: usize = n;
        while j > 0 && d == n
            invariant
                j <= n,
                d <= n,
                n == pv@.len(),
                d == n ==> forall|x: int| j <= x < n ==> pv@[x] != '/',
                d < n ==> d == j && pv@[d as int] == '/' && forall|x: int|
                    d < x < n ==> pv@[x] != '/',
            decreases j + (if d == n { 1int } else { 0int }),
        {
            if pv[j - 1] == '/' {
                d = j - 1;
                j = j - 1;
            } else {
                j = j - 1;
            }
        }
        proof {
            if d < n {
                lemma_find_last_char_hit(pv@, '/', d as int);
            } else {
                lemma_find_last_char(pv@, '/');
                if find_last_char(pv@, '/') >= 0 {
                    assert(pv@[find_last_char(pv@, '/')] == '/');
                }
                assert(find_last_char(pv@, '/') == -1);
            }
        }
        let cut: usize = if d == n {
            0
        } else {
            d + 1
        };
        let mut m = subvec(&pv, 0, cut);
        proof {
            assert(m@ =~= dir_of(bu@.path));
        }
        let ghost dirpart = m@;
        let mut t: usize = 0;
        while t < relpath.len()
            invariant
                t <= relpath@.len(),
                m@ == dirpart + relpath@.take(t as int),
            decreases relpath@.len() - t,
        {
            m.push(relpath[t]);
            t = t + 1;
            proof {
                assert(m@ =~= dirpart + relpath@.take(t as int));
            }
        }
        proof {
            assert(relpath@.take(relpath@.len() as int) =~= relpath@);
            assert(m@ =~= dir_of(bu@.path) + pqf_path(relative@));
        }
        merged = m;
        proof {
            assert(bu@.path.len() > 0 && bu@.path[0] == '/');
            lemma_find_last_char(bu@.path, '/');
            assert(find_last_char(bu@.path, '/') >= 0) by {
                if find_last_char(bu@.path, '/') == -1 {
                    assert(bu@.path[0] != '/');
                }
            }
            assert(merged@.len() > 0);
        }
    }
    let collapsed = collapse_exec(&merged);
    let nu = Url {
        scheme: bu.scheme,
        host: bu.host,
        port: bu.port,
        path: string_of(&collapsed),
        query: match quer {
            Some(q) => Some(string_of(&q)),
            None => None,
        },
        fragment: match frag {
            Some(f) => Some(string_of(&f)),
            None => None,
        },
    };
    Ok(nu.serialize())
}

} // verus!
