//! Text processing: graphemes, slugs and pattern matching.
//!
//! Grapheme segmentation and regular expressions are done by outside
//! crates behind trusted wrappers; truncation, slug building and the
//! plumbing around them are verified.

use vstd::prelude::*;
use vstd::string::*;
use crate::strutil::chars_of;
use crate::strutil::is_alnum;
use crate::strutil::alnum_char;
use crate::strutil::lower_seq;
use crate::strutil::string_of;
use crate::strutil::to_lower_vec;

verus! {

broadcast use vstd::string::group_string_axioms;

/// The grapheme clusters of a text, in order; a function of the
/// characters alone.
pub uninterp spec fn graphemes_of(s: Seq<char>) -> Seq<Seq<char>>;

/// Whether a pattern compiles as a regular expression.
pub uninterp spec fn regex_compiles(p: Seq<char>) -> bool;

/// Whether a compiled pattern matches somewhere in a text.
pub uninterp spec fn regex_matches(p: Seq<char>, t: Seq<char>) -> bool;

/// The non-overlapping, leftmost matches of a pattern in a text.
pub uninterp spec fn regex_found(p: Seq<char>, t: Seq<char>) -> Seq<Seq<char>>;

/// Relies on unicode-segmentation's `graphemes` (extended clusters): the
/// clusters of the text, in order.
#[verifier::external_body]
fn split_graphemes(text: &str) -> (r: Vec<String>)
    ensures
        r.deep_view() == graphemes_of(text@),
{
    unicode_segmentation::UnicodeSegmentation::graphemes(text, true).map(|g| g.to_string()).collect()
}

/// Relies on regex's `Regex::new` and `is_match`: compilation succeeds on
/// the pattern alone, and matching depends on pattern and text alone.
#[verifier::external_body]
fn regex_is_match(pattern: &str, text: &str) -> (r: Result<bool, String>)
    ensures
        r is Ok <==> regex_compiles(pattern@),
        r matches Ok(b) ==> b == regex_matches(pattern@, text@),
{
    match regex::Regex::new(pattern) {
        Ok(re) => Ok(re.is_match(text)),
        Err(e) => Err(format!("{}", e)),
    }
}

/// Relies on regex's `Regex::new` and `find_iter`: the non-overlapping
/// matches, left to right.
#[verifier::external_body]
fn regex_find_all(pattern: &str, text: &str) -> (r: Option<Vec<String>>)
    ensures
        r is Some <==> regex_compiles(pattern@),
        r matches Some(v) ==> v.deep_view() == regex_found(pattern@, text@),
{
    match regex::Regex::new(pattern) {
        Ok(re) => Some(re.find_iter(text).map(|m| m.as_str().to_string()).collect()),
        Err(_) => None,
    }
}

/// An invalid caller-supplied pattern, with the compiler's message.
#[derive(Debug)]
pub struct PatternError {
    pub message: String,
}

/// Does the text match the caller-supplied pattern?  The one operation
/// that accepts a grammar from the caller; an uncompilable pattern is the
/// only failure.
pub fn matches_pattern(text: &str, pattern: &str) -> (r: Result<bool, PatternError>)
    ensures
        r is Ok <==> regex_compiles(pattern@),
        r matches Ok(b) ==> b == regex_matches(pattern@, text@),
{
    match regex_is_match(pattern, text) {
        Ok(b) => Ok(b),
        Err(message) => Err(PatternError { message }),
    }
}

/// The email addresses found in free text, in order.
pub fn extract_email_addresses(text: &str) -> (r: Vec<String>)
    ensures
        regex_compiles("\\b[A-Za-z0-9._%+-]+@[A-Za-z0-9.-]+\\.[A-Z|a-z]{2,}\\b"@) ==> r.deep_view()
            == regex_found("\\b[A-Za-z0-9._%+-]+@[A-Za-z0-9.-]+\\.[A-Z|a-z]{2,}\\b"@, text@),
        !regex_compiles("\\b[A-Za-z0-9._%+-]+@[A-Za-z0-9.-]+\\.[A-Z|a-z]{2,}\\b"@) ==> r@.len()
            == 0,
{
    match regex_find_all("\\b[A-Za-z0-9._%+-]+@[A-Za-z0-9.-]+\\.[A-Z|a-z]{2,}\\b", text) {
        Some(v) => v,
        None => Vec::new(),
    }
}

/// The URLs found in free text, in order.
pub fn extract_urls(text: &str) -> (r: Vec<String>)
    ensures
        regex_compiles("https?://[^\\s<>\"]+"@) ==> r.deep_view() == regex_found(
            "https?://[^\\s<>\"]+"@,
            text@,
        ),
        !regex_compiles("https?://[^\\s<>\"]+"@) ==> r@.len() == 0,
{
    match regex_find_all("https?://[^\\s<>\"]+", text) {
        Some(v) => v,
        None => Vec::new(),
    }
}

/// How many grapheme clusters the text has.
pub fn count_graphemes(text: &str) -> (r: usize)
    ensures
        r == graphemes_of(text@).len(),
{
    let g = split_graphemes(text);
    g.len()
}

/// The concatenation of a piece list.
pub open spec fn concat_pieces(ps: Seq<Seq<char>>) -> Seq<char>
    decreases ps.len(),
{
    if ps.len() == 0 {
        Seq::empty()
    } else {
        concat_pieces(ps.drop_last()) + ps[ps.len() - 1]
    }
}

/// The truncated text: unchanged when it has at most `max` graphemes,
/// else its first `max` graphemes followed by an ellipsis.
pub open spec fn spec_truncate(s: Seq<char>, max: int) -> Seq<char> {
    if graphemes_of(s).len() <= max {
        s
    } else {
        concat_pieces(graphemes_of(s).take(max)) + "..."@
    }
}

/// Truncate to a number of grapheme clusters, marking the cut with `...`.
pub fn truncate_text(text: &str, max_length: usize) -> (r: String)
    ensures
        r@ == spec_truncate(text@, max_length as int),
{
    let g = split_graphemes(text);
    if g.len() <= max_length {
        return text.to_owned();
    }
    let ghost gs = graphemes_of(text@);
    let mut out: Vec<char> = Vec::new();
    let mut i: usize = 0;
    proof {
        assert(gs.take(max_length as int).take(0) =~= Seq::<Seq<char>>::empty());
        assert(out@ =~= concat_pieces(gs.take(max_length as int).take(0)));
    }
    while i < max_length
        invariant
            i <= max_length,
            max_length < g@.len(),
            g.deep_view() == gs,
            out@ == concat_pieces(gs.take(max_length as int).take(i as int)),
        decreases max_length - i,
    {
        let piece = chars_of(g[i].as_str());
        let ghost mid = out@;
        let mut t: usize = 0;
        while t < piece.len()
            invariant
                t <= piece@.len(),
                out@ == mid + piece@.take(t as int),
            decreases piece@.len() - t,
        {
            out.push(piece[t]);
            t = t + 1;
            proof {
                assert(out@ =~= mid + piece@.take(t as int));
            }
        }
        i = i + 1;
        proof {
            let pref = gs.take(max_length as int);
            assert(piece@.take(piece@.len() as int) =~= piece@);
            assert(piece@ == gs[i - 1]);
            assert(pref.take(i as int).drop_last() =~= pref.take(i - 1));
            assert(pref.take(i as int)[i - 1] == gs[i - 1]);
            assert(out@ =~= concat_pieces(pref.take(i as int)));
        }
    }
    out.push('.');
    out.push('.');
    out.push('.');
    proof {
        reveal_strlit("...");
        assert(gs.take(max_length as int).take(max_length as int) =~= gs.take(
            max_length as int,
        ));
        assert(out@ =~= concat_pieces(gs.take(max_length as int)) + "..."@);
    }
    string_of(&out)
}

/// Is the text pure ASCII?
pub fn is_ascii_only(text: &str) -> (r: bool)
    ensures
        r == vstd::utf8::is_ascii_chars(text@),
{
    text.is_ascii()
}

/// A character the slug filter keeps: letters, digits, spaces, hyphens.
pub open spec fn slug_keeps(c: char) -> bool {
    is_alnum(c) || c == ' ' || c == '-'
}

/// The kept characters of a text, in order.
pub open spec fn slug_kept(s: Seq<char>) -> Seq<char>
    decreases s.len(),
{
    if s.len() == 0 {
        Seq::empty()
    } else if slug_keeps(s[s.len() - 1]) {
        slug_kept(s.drop_last()).push(s[s.len() - 1])
    } else {
        slug_kept(s.drop_last())
    }
}

/// Spaces collapsed: each run of spaces becomes a single hyphen.
pub open spec fn collapse_spaces(s: Seq<char>) -> Seq<char>
    decreases s.len(),
{
    if s.len() == 0 {
        Seq::empty()
    } else if s[s.len() - 1] == ' ' {
        if s.len() >= 2 && s[s.len() - 2] == ' ' {
            collapse_spaces(s.drop_last())
        } else {
            collapse_spaces(s.drop_last()).push('-')
        }
    } else {
        collapse_spaces(s.drop_last()).push(s[s.len() - 1])
    }
}

/// The slug of a text: keep letters, digits, spaces and hyphens, turn
/// space runs into single hyphens, and lowercase the rest.
pub open spec fn spec_slug(s: Seq<char>) -> Seq<char> {
    lower_seq(collapse_spaces(slug_kept(s)))
}

/// Turn a text into a slug.
pub fn to_slug(text: &str) -> (r: String)
    ensures
        r@ == spec_slug(text@),
{
    let v = chars_of(text);
    let mut kept: Vec<char> = Vec::new();
    let mut i: usize = 0;
    proof {
        assert(v@.take(0) =~= Seq::<char>::empty());
    }
    while i < v.len()
        invariant
            i <= v@.len(),
            v@ == text@,
            kept@ == slug_kept(v@.take(i as int)),
        decreases v@.len() - i,
    {
        proof {
            assert(v@.take(i + 1).drop_last() =~= v@.take(i as int));
        }
        let c = v[i];
        if alnum_char(c) || c == ' ' || c == '-' {
            kept.push(c);
        }
        i = i + 1;
    }
    proof {
        assert(v@.take(v@.len() as int) =~= v@);
    }
    let mut dashed: Vec<char> = Vec::new();
    let mut j: usize = 0;
    proof {
        assert(kept@.take(0) =~= Seq::<char>::empty());
    }
    while j < kept.len()
        invariant
            j <= kept@.len(),
            dashed@ == collapse_spaces(kept@.take(j as int)),
        decreases kept@.len() - j,
    {
        proof {
            assert(kept@.take(j + 1).drop_last() =~= kept@.take(j as int));
        }
        let c = kept[j];
        if c == ' ' {
            if j >= 1 && kept[j - 1] == ' ' {
            } else {
                dashed.push('-');
            }
        } else {
            dashed.push(c);
        }
        j = j + 1;
    }
    proof {
        assert(kept@.take(kept@.len() as int) =~= kept@);
    }
    let lowered = to_lower_vec(&dashed);
    string_of(&lowered)
}

} // verus!