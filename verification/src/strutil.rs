//! Character classes and conversions between `&str`, `Vec<char>` and `String`.
//!
//! Every function in the library works over `Seq<char>` in its contract; the
//! helpers here move values between the executable string types and that
//! model.

use vstd::prelude::*;
use vstd::string::*;

verus! {

/// ASCII decimal digit `0`..`9`.
pub open spec fn is_digit(c: char) -> bool {
    48 <= c as u32 <= 57
}

/// ASCII lowercase letter `a`..`z`.
pub open spec fn is_lower(c: char) -> bool {
    97 <= c as u32 <= 122
}

/// ASCII uppercase letter `A`..`Z`.
pub open spec fn is_upper(c: char) -> bool {
    65 <= c as u32 <= 90
}

/// ASCII letter.
pub open spec fn is_alpha(c: char) -> bool {
    is_lower(c) || is_upper(c)
}

/// ASCII letter or digit.
pub open spec fn is_alnum(c: char) -> bool {
    is_alpha(c) || is_digit(c)
}

/// ASCII hexadecimal digit.
pub open spec fn is_hex_digit(c: char) -> bool {
    is_digit(c) || (97 <= c as u32 <= 102) || (65 <= c as u32 <= 70)
}

/// Numeric value of a decimal digit.
pub open spec fn digit_val(c: char) -> int {
    c as u32 - 48
}

/// Numeric value of a hexadecimal digit.
pub open spec fn hex_val(c: char) -> int {
    if is_digit(c) {
        c as u32 - 48
    } else if 97 <= c as u32 <= 102 {
        c as u32 - 87
    } else {
        c as u32 - 55
    }
}

pub fn digit_char(c: char) -> (r: bool)
    ensures
        r == is_digit(c),
{
    let u = c as u32;
    48 <= u && u <= 57
}

pub fn lower_char(c: char) -> (r: bool)
    ensures
        r == is_lower(c),
{
    let u = c as u32;
    97 <= u && u <= 122
}

pub fn upper_char(c: char) -> (r: bool)
    ensures
        r == is_upper(c),
{
    let u = c as u32;
    65 <= u && u <= 90
}

pub fn alpha_char(c: char) -> (r: bool)
    ensures
        r == is_alpha(c),
{
    lower_char(c) || upper_char(c)
}

pub fn alnum_char(c: char) -> (r: bool)
    ensures
        r == is_alnum(c),
{
    alpha_char(c) || digit_char(c)
}

pub fn hex_digit_char(c: char) -> (r: bool)
    ensures
        r == is_hex_digit(c),
{
    let u = c as u32;
    digit_char(c) || (97 <= u && u <= 102) || (65 <= u && u <= 70)
}

/// First index of the character `c` in `s`, or `s.len()` when absent.
pub open spec fn find_char(s: Seq<char>, c: char) -> int
    decreases s.len(),
{
    if s.len() == 0 {
        s.len() as int
    } else if s[0] == c {
        0
    } else {
        1 + find_char(s.drop_first(), c)
    }
}

/// `find_char` stays within `0 ..= s.len()`, and tells exactly whether and
/// where `c` first occurs.
pub proof fn lemma_find_char(s: Seq<char>, c: char)
    ensures
        0 <= find_char(s, c) <= s.len(),
        find_char(s, c) < s.len() ==> s[find_char(s, c)] == c,
        forall|j: int| 0 <= j < find_char(s, c) ==> s[j] != c,
    decreases s.len(),
{
    if s.len() > 0 && s[0] != c {
        lemma_find_char(s.drop_first(), c);
        assert forall|j: int| 0 <= j < find_char(s, c) implies s[j] != c by {
            if j > 0 {
                assert(s.drop_first()[j - 1] == s[j]);
            }
        }
    }
}

/// When no character of `s` is `c`, `find_char` runs off the end.
pub proof fn lemma_find_char_no_hit(s: Seq<char>, c: char)
    requires
        forall|j: int| 0 <= j < s.len() ==> s[j] != c,
    ensures
        find_char(s, c) == s.len(),
    decreases s.len(),
{
    if s.len() > 0 {
        lemma_find_char_no_hit(s.drop_first(), c);
    }
}

/// When `s[i]` is the first occurrence of `c`, `find_char` returns `i`.
pub proof fn lemma_find_char_prefix_hit(s: Seq<char>, c: char, i: int)
    requires
        0 <= i < s.len(),
        s[i] == c,
        forall|j: int| 0 <= j < i ==> s[j] != c,
    ensures
        find_char(s, c) == i,
    decreases s.len(),
{
    if i > 0 {
        lemma_find_char_prefix_hit(s.drop_first(), c, i - 1);
    }
}

/// ASCII-lowercase a character: `A`..`Z` map down, all else is kept.
pub open spec fn lower_of(c: char) -> char {
    if is_upper(c) {
        (c as u32 + 32) as char
    } else {
        c
    }
}

/// ASCII-uppercase a character: `a`..`z` map up, all else is kept.
pub open spec fn upper_of(c: char) -> char {
    if is_lower(c) {
        (c as u32 - 32) as char
    } else {
        c
    }
}

/// ASCII-lowercase a character sequence.
pub open spec fn lower_seq(s: Seq<char>) -> Seq<char> {
    Seq::new(s.len(), |i: int| lower_of(s[i]))
}

/// ASCII-uppercase a character sequence.
pub open spec fn upper_seq(s: Seq<char>) -> Seq<char> {
    Seq::new(s.len(), |i: int| upper_of(s[i]))
}

/// Last index of `c` in `s`, or `-1` when absent.
pub open spec fn find_last_char(s: Seq<char>, c: char) -> int
    decreases s.len(),
{
    if s.len() == 0 {
        -1
    } else if s[s.len() - 1] == c {
        s.len() - 1
    } else {
        find_last_char(s.drop_last(), c)
    }
}

/// `find_last_char` is in range and names the last occurrence.
pub proof fn lemma_find_last_char(s: Seq<char>, c: char)
    ensures
        -1 <= find_last_char(s, c) < s.len(),
        find_last_char(s, c) >= 0 ==> s[find_last_char(s, c)] == c,
        forall|j: int| find_last_char(s, c) < j < s.len() ==> s[j] != c,
        find_last_char(s, c) == -1 ==> forall|j: int| 0 <= j < s.len() ==> s[j] != c,
    decreases s.len(),
{
    if s.len() > 0 && s[s.len() - 1] != c {
        lemma_find_last_char(s.drop_last(), c);
        assert forall|j: int| 0 <= j < s.len() - 1 implies s.drop_last()[j] == s[j] by {}
    }
}

/// The pieces of `s` between occurrences of the separator `c`.  An empty
/// input gives one empty piece; `n` separators give `n + 1` pieces.
pub open spec fn split_char(s: Seq<char>, c: char) -> Seq<Seq<char>>
    decreases s.len(),
    via split_char_decreases
{
    let k = find_char(s, c);
    if k == s.len() {
        seq![s]
    } else {
        seq![s.take(k)] + split_char(s.skip(k + 1), c)
    }
}

#[via_fn]
proof fn split_char_decreases(s: Seq<char>, c: char) {
    lemma_find_char(s, c);
}

/// When `s[i]` is the last occurrence of `c`, `find_last_char` returns `i`.
pub proof fn lemma_find_last_char_hit(s: Seq<char>, c: char, i: int)
    requires
        0 <= i < s.len(),
        s[i] == c,
        forall|j: int| i < j < s.len() ==> s[j] != c,
    ensures
        find_last_char(s, c) == i,
    decreases s.len(),
{
    if i < s.len() - 1 {
        lemma_find_last_char_hit(s.drop_last(), c, i);
    }
}

/// Every character of `s` is a decimal digit.
pub open spec fn all_digits(s: Seq<char>) -> bool {
    forall|i: int| 0 <= i < s.len() ==> is_digit(#[trigger] s[i])
}

/// The number written in decimal by `s` (0 for the empty sequence).
pub open spec fn dec_val(s: Seq<char>) -> int
    decreases s.len(),
{
    if s.len() == 0 {
        0
    } else {
        dec_val(s.drop_last()) * 10 + digit_val(s[s.len() - 1])
    }
}

/// A digit string never denotes a negative number.
pub proof fn lemma_dec_val_nonneg(s: Seq<char>)
    requires
        all_digits(s),
    ensures
        dec_val(s) >= 0,
    decreases s.len(),
{
    if s.len() > 0 {
        assert(all_digits(s.drop_last())) by {
            assert(forall|i: int|
                0 <= i < s.len() - 1 ==> s.drop_last()[i] == #[trigger] s[i]);
        }
        lemma_dec_val_nonneg(s.drop_last());
    }
}

/// Decimal value of `v[a..b]`, when every character is a digit and the
/// value is at most `cap`; `None` otherwise.
pub fn dec_value_upto(v: &Vec<char>, a: usize, b: usize, cap: u32) -> (r: Option<u32>)
    requires
        a <= b <= v@.len(),
        cap <= 1000000,
    ensures
        match r {
            Some(x) => {
                &&& all_digits(v@.subrange(a as int, b as int))
                &&& dec_val(v@.subrange(a as int, b as int)) == x
                &&& x <= cap
            },
            None => !all_digits(v@.subrange(a as int, b as int)) || dec_val(
                v@.subrange(a as int, b as int),
            ) > cap,
        },
{
    let mut val: u32 = 0;
    let mut i: usize = a;
    while i < b
        invariant
            a <= i <= b <= v@.len(),
            cap <= 1000000,
            all_digits(v@.subrange(a as int, i as int)),
            dec_val(v@.subrange(a as int, i as int)) <= cap ==> val == dec_val(
                v@.subrange(a as int, i as int),
            ),
            dec_val(v@.subrange(a as int, i as int)) > cap ==> val == cap + 1,
        decreases b - i,
    {
        let c = v[i];
        if !digit_char(c) {
            assert(!is_digit(v@.subrange(a as int, b as int)[i - a]));
            return None;
        }
        let d: u32 = c as u32 - 48;
        proof {
            let pre = v@.subrange(a as int, i as int);
            let pre2 = v@.subrange(a as int, i + 1);
            assert(pre2.drop_last() =~= pre);
            assert(pre2[pre2.len() - 1] == c);
            lemma_dec_val_nonneg(pre);
        }
        let t: u32 = if val > cap {
            cap + 1
        } else if val * 10 + d > cap {
            cap + 1
        } else {
            val * 10 + d
        };
        val = t;
        i = i + 1;
    }
    proof {
        if val <= cap {
            lemma_dec_val_nonneg(v@.subrange(a as int, b as int));
        }
    }
    if val <= cap {
        Some(val)
    } else {
        None
    }
}

/// The characters of a string slice, in order.
pub fn chars_of(s: &str) -> (r: Vec<char>)
    ensures
        r@ == s@,
{
    let n = s.unicode_len();
    let mut r: Vec<char> = Vec::new();
    let mut i: usize = 0;
    while i < n
        invariant
            n == s@.len(),
            i <= n,
            r@ == s@.take(i as int),
        decreases n - i,
    {
        r.push(s.get_char(i));
        i = i + 1;
        proof {
            assert(r@ =~= s@.take(i as int));
        }
    }
    proof {
        assert(s@.take(n as int) =~= s@);
    }
    r
}

/// Relies on `String::push`: appends one character at the end.
#[verifier::external_body]
pub fn push_char(s: &mut String, c: char)
    ensures
        final(s)@ == old(s)@.push(c),
{
    s.push(c);
}

/// The characters `v[a..b]` as a fresh vector.
pub fn subvec(v: &Vec<char>, a: usize, b: usize) -> (r: Vec<char>)
    requires
        a <= b <= v@.len(),
    ensures
        r@ == v@.subrange(a as int, b as int),
{
    let mut r: Vec<char> = Vec::new();
    let mut i: usize = a;
    while i < b
        invariant
            a <= i <= b <= v@.len(),
            r@ == v@.subrange(a as int, i as int),
        decreases b - i,
    {
        r.push(v[i]);
        i = i + 1;
        proof {
            assert(r@ =~= v@.subrange(a as int, i as int));
        }
    }
    r
}

/// Split `v` at every occurrence of the separator `c`.
pub fn split_chars(v: &Vec<char>, c: char) -> (r: Vec<Vec<char>>)
    ensures
        r.deep_view() == split_char(v@, c),
{
    let mut parts: Vec<Vec<char>> = Vec::new();
    let mut start: usize = 0;
    let mut i: usize = 0;
    proof {
        assert(v@.skip(0) =~= v@);
        assert(parts.deep_view() + split_char(v@, c) =~= split_char(v@, c));
    }
    while i < v.len()
        invariant
            start <= i <= v@.len(),
            forall|j: int| start <= j < i ==> v@[j] != c,
            split_char(v@, c) == parts.deep_view() + split_char(v@.skip(start as int), c),
        decreases v@.len() - i,
    {
        if v[i] == c {
            let piece = subvec(v, start, i);
            let ghost before = parts.deep_view();
            proof {
                let tail = v@.skip(start as int);
                assert forall|j: int| 0 <= j < i - start implies tail[j] != c by {
                    assert(tail[j] == v@[start + j]);
                }
                lemma_find_char_prefix_hit(tail, c, i - start);
                assert(tail.take(i - start) =~= v@.subrange(start as int, i as int));
                assert(tail.skip(i - start + 1) =~= v@.skip(i + 1));
            }
            parts.push(piece);
            proof {
                assert(parts.deep_view() =~~= before.push(piece@));
                assert(before + split_char(v@.skip(start as int), c) =~= parts.deep_view()
                    + split_char(v@.skip(i + 1), c));
            }
            start = i + 1;
        }
        i = i + 1;
    }
    let last = subvec(v, start, v.len());
    let ghost before = parts.deep_view();
    proof {
        let tail = v@.skip(start as int);
        assert forall|j: int| 0 <= j < tail.len() implies tail[j] != c by {
            assert(tail[j] == v@[start + j]);
        }
        lemma_find_char_no_hit(tail, c);
        assert(tail =~= v@.subrange(start as int, v@.len() as int));
    }
    parts.push(last);
    proof {
        assert(parts.deep_view() =~~= before.push(last@));
        assert(before + split_char(v@.skip(start as int), c) =~= parts.deep_view());
    }
    parts
}

/// Relies on `char::from_u32`: `Some` exactly for Unicode scalar values
/// (not a surrogate, at most `0x10FFFF`), and the returned character casts
/// back to the given code.
#[verifier::external_body]
pub fn char_from_u32(u: u32) -> (r: Option<char>)
    ensures
        r is Some <==> vstd::utf8::is_scalar(u),
        r matches Some(c) ==> c as u32 == u,
{
    char::from_u32(u)
}

/// Map one character to ASCII lowercase.
pub fn to_lower_char(c: char) -> (r: char)
    ensures
        r == lower_of(c),
{
    let u = c as u32;
    if 65 <= u && u <= 90 {
        let v: u32 = u + 32;
        match char_from_u32(v) {
            Some(d) => {
                proof {
                    vstd::utf8::char_u32_cast(d, v);
                }
                d
            },
            None => {
                proof {
                    assert(vstd::utf8::has_width_1_encoding(v));
                    assert(false);
                }
                c
            },
        }
    } else {
        c
    }
}

/// Map one character to ASCII uppercase.
pub fn to_upper_char(c: char) -> (r: char)
    ensures
        r == upper_of(c),
{
    let u = c as u32;
    if 97 <= u && u <= 122 {
        let v: u32 = u - 32;
        match char_from_u32(v) {
            Some(d) => {
                proof {
                    vstd::utf8::char_u32_cast(d, v);
                }
                d
            },
            None => {
                proof {
                    assert(vstd::utf8::has_width_1_encoding(v));
                    assert(false);
                }
                c
            },
        }
    } else {
        c
    }
}

/// ASCII-lowercase a whole vector of characters.
pub fn to_lower_vec(v: &Vec<char>) -> (r: Vec<char>)
    ensures
        r@ == lower_seq(v@),
{
    let mut r: Vec<char> = Vec::new();
    let mut i: usize = 0;
    while i < v.len()
        invariant
            i <= v@.len(),
            r@ == lower_seq(v@.take(i as int)),
        decreases v@.len() - i,
    {
        r.push(to_lower_char(v[i]));
        i = i + 1;
        proof {
            assert(r@ =~= lower_seq(v@.take(i as int)));
        }
    }
    proof {
        assert(lower_seq(v@.take(v@.len() as int)) =~= lower_seq(v@));
    }
    r
}

/// ASCII-uppercase a whole vector of characters.
pub fn to_upper_vec(v: &Vec<char>) -> (r: Vec<char>)
    ensures
        r@ == upper_seq(v@),
{
    let mut r: Vec<char> = Vec::new();
    let mut i: usize = 0;
    while i < v.len()
        invariant
            i <= v@.len(),
            r@ == upper_seq(v@.take(i as int)),
        decreases v@.len() - i,
    {
        r.push(to_upper_char(v[i]));
        i = i + 1;
        proof {
            assert(r@ =~= upper_seq(v@.take(i as int)));
        }
    }
    proof {
        assert(upper_seq(v@.take(v@.len() as int)) =~= upper_seq(v@));
    }
    r
}

/// Do the characters match the string slice exactly?
pub fn eq_str(v: &Vec<char>, s: &str) -> (r: bool)
    ensures
        r == (v@ == s@),
{
    let n = s.unicode_len();
    if v.len() != n {
        return false;
    }
    let mut i: usize = 0;
    while i < n
        invariant
            n == s@.len(),
            v@.len() == n,
            i <= n,
            forall|j: int| 0 <= j < i ==> v@[j] == s@[j],
        decreases n - i,
    {
        if v[i] != s.get_char(i) {
            return false;
        }
        i = i + 1;
    }
    proof {
        assert(v@ =~= s@);
    }
    true
}

/// A `String` holding exactly the given characters.
pub fn string_of(v: &Vec<char>) -> (r: String)
    ensures
        r@ == v@,
{
    let mut r = String::new();
    let mut i: usize = 0;
    while i < v.len()
        invariant
            i <= v@.len(),
            r@ == v@.take(i as int),
        decreases v@.len() - i,
    {
        push_char(&mut r, v[i]);
        i = i + 1;
        proof {
            assert(r@ =~= v@.take(i as int));
        }
    }
    proof {
        assert(v@.take(v@.len() as int) =~= v@);
    }
    r
}

} // verus!
