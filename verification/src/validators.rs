//! The format validator catalog.
//!
//! Each validator is a total predicate (or score) over one input string: a
//! malformed input yields `false` or the lowest score, never an error.  The
//! grammar of every format is written out as a spec function, and each
//! executable validator is proved to return exactly the grammar's verdict.

use vstd::prelude::*;
use vstd::string::*;
use crate::strutil::all_digits;
use crate::strutil::alnum_char;
use crate::strutil::alpha_char;
use crate::strutil::chars_of;
use crate::strutil::dec_val;
use crate::strutil::dec_value_upto;
use crate::strutil::digit_char;
use crate::strutil::digit_val;
use crate::strutil::eq_str;
use crate::strutil::find_char;
use crate::strutil::find_last_char;
use crate::strutil::hex_digit_char;
use crate::strutil::is_alnum;
use crate::strutil::is_alpha;
use crate::strutil::is_digit;
use crate::strutil::is_hex_digit;
use crate::strutil::is_lower;
use crate::strutil::is_upper;
use crate::strutil::lemma_find_char_no_hit;
use crate::strutil::lemma_find_char_prefix_hit;
use crate::strutil::lemma_find_last_char_hit;
use crate::strutil::lemma_find_last_char;
use crate::strutil::lower_char;
use crate::strutil::split_char;
use crate::strutil::split_chars;
use crate::strutil::to_upper_vec;
use crate::strutil::upper_char;
use crate::strutil::upper_seq;

verus! {

broadcast use vstd::string::group_string_axioms;

// ---------------------------------------------------------------------------
// Credit cards (Luhn)
// ---------------------------------------------------------------------------

/// The decimal digits of `s`, other characters ignored.
pub open spec fn digits_of(s: Seq<char>) -> Seq<char>
    decreases s.len(),
{
    if s.len() == 0 {
        Seq::empty()
    } else if is_digit(s[s.len() - 1]) {
        digits_of(s.drop_last()).push(s[s.len() - 1])
    } else {
        digits_of(s.drop_last())
    }
}

/// Everything `digits_of` keeps is a digit.
pub proof fn lemma_digits_of(s: Seq<char>)
    ensures
        all_digits(digits_of(s)),
    decreases s.len(),
{
    if s.len() > 0 {
        lemma_digits_of(s.drop_last());
    }
}

/// One Luhn step: a doubled digit, with nine subtracted when two digits
/// would appear.
pub open spec fn luhn_double(v: int) -> int {
    if 2 * v > 9 {
        2 * v - 9
    } else {
        2 * v
    }
}

/// The Luhn checksum of a digit string: every second digit counted from the
/// right is doubled, and all digit values are summed.
pub open spec fn luhn_sum(d: Seq<char>) -> int
    decreases d.len(),
{
    if d.len() == 0 {
        0
    } else {
        let v = digit_val(d[0]);
        let c = if (d.len() - 1) % 2 == 1 {
            luhn_double(v)
        } else {
            v
        };
        c + luhn_sum(d.drop_first())
    }
}

/// A credit-card number is valid when its digits (13 to 19 of them) pass
/// the Luhn check.
pub open spec fn spec_validate_credit_card(s: Seq<char>) -> bool {
    let d = digits_of(s);
    13 <= d.len() <= 19 && luhn_sum(d) % 10 == 0
}

/// Partial Luhn sums stay between 0 and nine per digit.
proof fn lemma_luhn_sum_bounds(d: Seq<char>)
    requires
        all_digits(d),
    ensures
        0 <= luhn_sum(d) <= 9 * d.len(),
    decreases d.len(),
{
    if d.len() > 0 {
        assert(all_digits(d.drop_first())) by {
            assert(forall|i: int|
                0 <= i < d.len() - 1 ==> d.drop_first()[i] == #[trigger] d[i + 1]);
        }
        lemma_luhn_sum_bounds(d.drop_first());
    }
}

/// The Luhn weight of the digit at position `i`: doubled (minus nine)
/// when the position is an even distance before an odd-length tail.
pub open spec fn luhn_at(d: Seq<char>, i: int) -> int {
    let v = digit_val(d[i]);
    if (d.len() - 1 - i) % 2 == 1 {
        luhn_double(v)
    } else {
        v
    }
}

/// Two digit strings that agree except at one position have Luhn sums
/// that differ by exactly that position's weights.
proof fn lemma_luhn_sum_diff(d1: Seq<char>, d2: Seq<char>, i: int)
    requires
        d1.len() == d2.len(),
        0 <= i < d1.len(),
        forall|j: int| 0 <= j < d1.len() && j != i ==> d1[j] == #[trigger] d2[j],
    ensures
        luhn_sum(d2) - luhn_sum(d1) == luhn_at(d2, i) - luhn_at(d1, i),
    decreases d1.len(),
{
    if i == 0 {
        assert forall|j: int|
            0 <= j < d1.len() - 1 implies d1.drop_first()[j] == #[trigger] d2.drop_first()[
            j
        ] by {
            assert(d1.drop_first()[j] == d1[j + 1]);
            assert(d2.drop_first()[j] == d2[j + 1]);
        }
        assert(d1.drop_first() =~= d2.drop_first());
    } else {
        assert(d1[0] == d2[0]);
        assert forall|j: int|
            0 <= j < d1.len() - 1 && j != i - 1 implies d1.drop_first()[j]
            == #[trigger] d2.drop_first()[j] by {
            assert(d1.drop_first()[j] == d1[j + 1]);
            assert(d2.drop_first()[j] == d2[j + 1]);
        }
        lemma_luhn_sum_diff(d1.drop_first(), d2.drop_first(), i - 1);
        assert(d1.drop_first()[i - 1] == d1[i]);
        assert(d2.drop_first()[i - 1] == d2[i]);
        assert(luhn_at(d1.drop_first(), i - 1) == luhn_at(d1, i));
        assert(luhn_at(d2.drop_first(), i - 1) == luhn_at(d2, i));
    }
}

/// The Luhn check detects every single-digit substitution: replacing one
/// digit of a number that passes, by a different digit, makes it fail.
/// (The doubled-digit map permutes the digit values, so the weighted sum
/// always moves by a nonzero amount below ten.)
pub proof fn lemma_luhn_detects_substitution(s1: Seq<char>, s2: Seq<char>, i: int)
    requires
        spec_validate_credit_card(s1),
        digits_of(s2).len() == digits_of(s1).len(),
        0 <= i < digits_of(s1).len(),
        digits_of(s1)[i] != digits_of(s2)[i],
        forall|j: int|
            0 <= j < digits_of(s1).len() && j != i ==> digits_of(s1)[j] == #[trigger] digits_of(
                s2,
            )[j],
    ensures
        !spec_validate_credit_card(s2),
{
    let d1 = digits_of(s1);
    let d2 = digits_of(s2);
    lemma_digits_of(s1);
    lemma_digits_of(s2);
    lemma_luhn_sum_diff(d1, d2, i);
    let v1 = digit_val(d1[i]);
    let v2 = digit_val(d2[i]);
    assert(is_digit(d1[i]) && is_digit(d2[i]));
    assert(v1 != v2) by {
        if d1[i] as u32 == d2[i] as u32 {
            vstd::utf8::char_u32_cast(d1[i], d1[i] as u32);
            vstd::utf8::char_u32_cast(d2[i], d1[i] as u32);
        }
    }
    let a1 = luhn_at(d1, i);
    let a2 = luhn_at(d2, i);
    assert(a1 != a2 && 0 <= a1 <= 9 && 0 <= a2 <= 9) by {
        if (d1.len() - 1 - i) % 2 == 1 {
            assert(luhn_double(v1) != luhn_double(v2));
        }
    }
    let delta = a2 - a1;
    let x = luhn_sum(d1);
    assert(x % 10 == 0);
    assert(x == 10 * (x / 10) + x % 10);
    vstd::arithmetic::div_mod::lemma_mod_multiples_vanish(x / 10, delta, 10);
    assert(luhn_sum(d2) == 10 * (x / 10) + delta);
    assert(luhn_sum(d2) % 10 == delta % 10);
    assert(delta % 10 != 0);
}

/// Luhn validation of a credit-card number.  Only ASCII digits take part;
/// every other character is skipped without influencing the digit
/// positions.
pub fn validate_credit_card(card_number: &str) -> (r: bool)
    ensures
        r == spec_validate_credit_card(card_number@),
{
    let v = chars_of(card_number);
    let mut d: Vec<char> = Vec::new();
    let mut i: usize = 0;
    proof {
        assert(v@.take(0) =~= Seq::<char>::empty());
    }
    while i < v.len()
        invariant
            i <= v@.len(),
            d@ == digits_of(v@.take(i as int)),
        decreases v@.len() - i,
    {
        proof {
            assert(v@.take(i + 1).drop_last() =~= v@.take(i as int));
        }
        if digit_char(v[i]) {
            d.push(v[i]);
        }
        i = i + 1;
    }
    proof {
        assert(v@.take(v@.len() as int) =~= v@);
        lemma_digits_of(v@);
    }
    let n = d.len();
    if n < 13 || n > 19 {
        return false;
    }
    let mut sum: u32 = 0;
    let mut j: usize = 0;
    proof {
        assert(d@.skip(0) =~= d@);
    }
    while j < n
        invariant
            j <= n,
            n == d@.len(),
            13 <= n <= 19,
            all_digits(d@),
            sum <= 9 * j,
            sum + luhn_sum(d@.skip(j as int)) == luhn_sum(d@),
        decreases n - j,
    {
        proof {
            assert(d@.skip(j as int).drop_first() =~= d@.skip(j + 1));
            assert(d@.skip(j as int)[0] == d@[j as int]);
            lemma_luhn_sum_bounds(d@);
            assert(all_digits(d@.skip(j + 1))) by {
                assert(forall|i: int|
                    0 <= i < d@.len() - j - 1 ==> d@.skip(j + 1)[i] == #[trigger] d@[
                        i + j + 1
                    ]);
            }
            lemma_luhn_sum_bounds(d@.skip(j + 1));
        }
        let val: u32 = d[j] as u32 - 48;
        let step_add: u32 = if (n - 1 - j) % 2 == 1 {
            let twice = 2 * val;
            if twice > 9 {
                twice - 9
            } else {
                twice
            }
        } else {
            val
        };
        sum = sum + step_add;
        j = j + 1;
    }
    proof {
        assert(d@.skip(n as int) =~= Seq::<char>::empty());
    }
    sum % 10 == 0
}

// ---------------------------------------------------------------------------
// IPv4
// ---------------------------------------------------------------------------

/// The digit part of an octet: an optional leading `+` sign is accepted,
/// as unsigned integer parsing accepts it.
pub open spec fn octet_digits(p: Seq<char>) -> Seq<char> {
    if p.len() > 0 && p[0] == '+' {
        p.skip(1)
    } else {
        p
    }
}

/// A dotted-quad part: parses as an 8-bit unsigned integer, and a multi
/// character part must not begin with `0`.
pub open spec fn valid_octet(p: Seq<char>) -> bool {
    let q = octet_digits(p);
    &&& q.len() > 0
    &&& all_digits(q)
    &&& dec_val(q) <= 255
    &&& !(p.len() > 1 && p[0] == '0')
}

/// An IPv4 address: exactly four `.`-separated parts, each a valid octet.
pub open spec fn spec_validate_ipv4(s: Seq<char>) -> bool {
    let parts = split_char(s, '.');
    parts.len() == 4 && forall|i: int| 0 <= i < 4 ==> valid_octet(#[trigger] parts[i])
}

/// Is one split part a valid dotted-quad octet?
fn octet_ok(p: &Vec<char>) -> (r: bool)
    ensures
        r == valid_octet(p@),
{
    let start: usize = if p.len() > 0 && p[0] == '+' {
        1
    } else {
        0
    };
    proof {
        if p@.len() > 0 && p@[0] == '+' {
            assert(octet_digits(p@) =~= p@.subrange(1, p@.len() as int));
        } else {
            assert(octet_digits(p@) =~= p@.subrange(0, p@.len() as int));
        }
    }
    if p.len() == start {
        return false;
    }
    if p.len() > 1 && p[0] == '0' {
        return false;
    }
    match dec_value_upto(p, start, p.len(), 255) {
        Some(_) => true,
        None => false,
    }
}

/// Dotted-quad IPv4 validation with the no-leading-zero rule.
pub fn validate_ipv4(ip: &str) -> (r: bool)
    ensures
        r == spec_validate_ipv4(ip@),
{
    let v = chars_of(ip);
    let parts = split_chars(&v, '.');
    if parts.len() != 4 {
        return false;
    }
    let mut i: usize = 0;
    while i < 4
        invariant
            i <= 4,
            parts.deep_view() == split_char(ip@, '.'),
            parts@.len() == 4,
            forall|k: int| 0 <= k < i ==> valid_octet(#[trigger] split_char(ip@, '.')[k]),
        decreases 4 - i,
    {
        proof {
            assert(parts@[i as int]@ == parts.deep_view()[i as int]);
        }
        if !octet_ok(&parts[i]) {
            return false;
        }
        i = i + 1;
    }
    true
}

// ---------------------------------------------------------------------------
// IPv6
// ---------------------------------------------------------------------------

/// One group of a fully expanded IPv6 address: one to four hex digits.
pub open spec fn valid_ipv6_group(p: Seq<char>) -> bool {
    1 <= p.len() <= 4 && forall|i: int| 0 <= i < p.len() ==> is_hex_digit(#[trigger] p[i])
}

/// A conservative IPv6 grammar: the fully expanded eight-group form, the
/// loopback literal `::1`, or the unspecified literal `::`.  Other
/// compressed notations are rejected.
pub open spec fn spec_validate_ipv6(s: Seq<char>) -> bool {
    let g = split_char(s, ':');
    ||| (g.len() == 8 && forall|i: int| 0 <= i < 8 ==> valid_ipv6_group(#[trigger] g[i]))
    ||| s == "::1"@
    ||| s == "::"@
}

/// Conservative IPv6 validation (expanded form plus two literals).
pub fn validate_ipv6(ip: &str) -> (r: bool)
    ensures
        r == spec_validate_ipv6(ip@),
{
    let v = chars_of(ip);
    if eq_str(&v, "::1") || eq_str(&v, "::") {
        return true;
    }
    let groups = split_chars(&v, ':');
    if groups.len() != 8 {
        return false;
    }
    let mut i: usize = 0;
    while i < 8
        invariant
            i <= 8,
            groups.deep_view() == split_char(ip@, ':'),
            groups@.len() == 8,
            forall|k: int| 0 <= k < i ==> valid_ipv6_group(#[trigger] split_char(ip@, ':')[k]),
        decreases 8 - i,
    {
        proof {
            assert(groups@[i as int]@ == groups.deep_view()[i as int]);
        }
        let g = &groups[i];
        if g.len() < 1 || g.len() > 4 {
            return false;
        }
        let mut j: usize = 0;
        while j < g.len()
            invariant
                j <= g@.len(),
                forall|k: int| 0 <= k < j ==> is_hex_digit(#[trigger] g@[k]),
            decreases g@.len() - j,
        {
            if !hex_digit_char(g[j]) {
                return false;
            }
            j = j + 1;
        }
        i = i + 1;
    }
    true
}

// ---------------------------------------------------------------------------
// MAC addresses
// ---------------------------------------------------------------------------

/// A MAC address: six two-hex-digit groups, each pair of groups separated
/// by `:` or `-` (the two separators may be mixed).
pub open spec fn spec_validate_mac(s: Seq<char>) -> bool {
    &&& s.len() == 17
    &&& forall|k: int|
        0 <= k < 6 ==> is_hex_digit(#[trigger] s[3 * k]) && is_hex_digit(s[3 * k + 1])
    &&& forall|k: int| 0 <= k < 5 ==> s[#[trigger] (3 * k + 2)] == ':' || s[3 * k + 2] == '-'
}

/// MAC-address validation.
pub fn validate_mac_address(mac: &str) -> (r: bool)
    ensures
        r == spec_validate_mac(mac@),
{
    let v = chars_of(mac);
    if v.len() != 17 {
        return false;
    }
    let mut k: usize = 0;
    while k < 6
        invariant
            k <= 6,
            v@ == mac@,
            v@.len() == 17,
            forall|t: int|
                0 <= t < k ==> is_hex_digit(#[trigger] mac@[3 * t]) && is_hex_digit(
                    mac@[3 * t + 1],
                ),
            forall|t: int|
                0 <= t < k && t < 5 ==> mac@[#[trigger] (3 * t + 2)] == ':' || mac@[3 * t
                    + 2] == '-',
        decreases 6 - k,
    {
        if !hex_digit_char(v[3 * k]) || !hex_digit_char(v[3 * k + 1]) {
            return false;
        }
        if k < 5 {
            let sep = v[3 * k + 2];
            if sep != ':' && sep != '-' {
                return false;
            }
        }
        k = k + 1;
    }
    true
}

// ---------------------------------------------------------------------------
// Password strength
// ---------------------------------------------------------------------------

/// The fixed catalog of special characters that strengthen a password.
pub open spec fn is_special(c: char) -> bool {
    c == '!' || c == '@' || c == '#' || c == '$' || c == '%' || c == '^' || c == '&' || c == '*'
        || c == '(' || c == ')' || c == '_' || c == '+' || c == '-' || c == '=' || c == '['
        || c == ']' || c == '{' || c == '}' || c == '|' || c == ';' || c == '\'' || c == ':'
        || c == '"' || c == ',' || c == '.' || c == '/' || c == '<' || c == '>' || c == '?'
}

/// The password score before clamping: one point each for a byte length of
/// at least eight, a lowercase letter, an uppercase letter, a digit and a
/// special character.
pub open spec fn raw_password_score(s: Seq<char>) -> int {
    (if vstd::utf8::encode_utf8(s).len() >= 8 {
        1int
    } else {
        0int
    }) + (if exists|i: int| 0 <= i < s.len() && is_lower(#[trigger] s[i]) {
        1int
    } else {
        0int
    }) + (if exists|i: int| 0 <= i < s.len() && is_upper(#[trigger] s[i]) {
        1int
    } else {
        0int
    }) + (if exists|i: int| 0 <= i < s.len() && is_digit(#[trigger] s[i]) {
        1int
    } else {
        0int
    }) + (if exists|i: int| 0 <= i < s.len() && is_special(#[trigger] s[i]) {
        1int
    } else {
        0int
    })
}

/// The score of a password, clamped to the 0..=4 scale.  A password meeting
/// all five criteria still scores 4.
pub open spec fn spec_password_score(s: Seq<char>) -> int {
    if raw_password_score(s) > 4 {
        4
    } else {
        raw_password_score(s)
    }
}

/// Is `c` in the special-character catalog?
fn special_char(c: char) -> (r: bool)
    ensures
        r == is_special(c),
{
    c == '!' || c == '@' || c == '#' || c == '$' || c == '%' || c == '^' || c == '&' || c == '*'
        || c == '(' || c == ')' || c == '_' || c == '+' || c == '-' || c == '=' || c == '['
        || c == ']' || c == '{' || c == '}' || c == '|' || c == ';' || c == '\'' || c == ':'
        || c == '"' || c == ',' || c == '.' || c == '/' || c == '<' || c == '>' || c == '?'
}

/// Password-strength scoring on the 0..=4 scale.
pub fn validate_password_strength(password: &str) -> (r: u8)
    ensures
        r == spec_password_score(password@),
{
    let v = chars_of(password);
    let mut has_lower = false;
    let mut has_upper = false;
    let mut has_digit = false;
    let mut has_special = false;
    let mut i: usize = 0;
    while i < v.len()
        invariant
            i <= v@.len(),
            v@ == password@,
            has_lower == exists|k: int| 0 <= k < i && is_lower(#[trigger] v@[k]),
            has_upper == exists|k: int| 0 <= k < i && is_upper(#[trigger] v@[k]),
            has_digit == exists|k: int| 0 <= k < i && is_digit(#[trigger] v@[k]),
            has_special == exists|k: int| 0 <= k < i && is_special(#[trigger] v@[k]),
        decreases v@.len() - i,
    {
        let c = v[i];
        if lower_char(c) {
            has_lower = true;
        }
        if upper_char(c) {
            has_upper = true;
        }
        if digit_char(c) {
            has_digit = true;
        }
        if special_char(c) {
            has_special = true;
        }
        i = i + 1;
    }
    let mut score: u8 = 0;
    let bytes = password.as_bytes_vec();
    if bytes.len() >= 8 {
        score = score + 1;
    }
    if has_lower {
        score = score + 1;
    }
    if has_upper {
        score = score + 1;
    }
    if has_digit {
        score = score + 1;
    }
    if has_special {
        score = score + 1;
    }
    if score > 4 {
        score = 4;
    }
    score
}

// ---------------------------------------------------------------------------
// Hex colors
// ---------------------------------------------------------------------------

/// A hex color: `#` followed by exactly three or exactly six hex digits.
pub open spec fn spec_validate_hex_color(s: Seq<char>) -> bool {
    &&& (s.len() == 4 || s.len() == 7)
    &&& s[0] == '#'
    &&& forall|i: int| 1 <= i < s.len() ==> is_hex_digit(#[trigger] s[i])
}

/// Hex-color validation.
pub fn validate_hex_color(color: &str) -> (r: bool)
    ensures
        r == spec_validate_hex_color(color@),
{
    let v = chars_of(color);
    if v.len() != 4 && v.len() != 7 {
        return false;
    }
    if v[0] != '#' {
        return false;
    }
    let mut i: usize = 1;
    while i < v.len()
        invariant
            1 <= i <= v@.len(),
            v@ == color@,
            forall|k: int| 1 <= k < i ==> is_hex_digit(#[trigger] v@[k]),
        decreases v@.len() - i,
    {
        if !hex_digit_char(v[i]) {
            return false;
        }
        i = i + 1;
    }
    true
}

// ---------------------------------------------------------------------------
// Social security numbers
// ---------------------------------------------------------------------------

/// A US SSN: three digits, a dash, two digits, a dash, four digits.
pub open spec fn spec_validate_ssn(s: Seq<char>) -> bool {
    &&& s.len() == 11
    &&& s[3] == '-'
    &&& s[6] == '-'
    &&& forall|i: int| 0 <= i < 11 && i != 3 && i != 6 ==> is_digit(#[trigger] s[i])
}

/// SSN validation.
pub fn validate_ssn(ssn: &str) -> (r: bool)
    ensures
        r == spec_validate_ssn(ssn@),
{
    let v = chars_of(ssn);
    if v.len() != 11 {
        return false;
    }
    if v[3] != '-' || v[6] != '-' {
        return false;
    }
    let mut i: usize = 0;
    while i < 11
        invariant
            i <= 11,
            v@ == ssn@,
            v@.len() == 11,
            forall|k: int| 0 <= k < i && k != 3 && k != 6 ==> is_digit(#[trigger] v@[k]),
        decreases 11 - i,
    {
        if i != 3 && i != 6 && !digit_char(v[i]) {
            return false;
        }
        i = i + 1;
    }
    true
}

// ---------------------------------------------------------------------------
// Emails
// ---------------------------------------------------------------------------

/// A character allowed in the local part of an email address.
pub open spec fn is_local_char(c: char) -> bool {
    is_alnum(c) || c == '.' || c == '_' || c == '%' || c == '+' || c == '-'
}

/// A character allowed in the domain labels of an email address.
pub open spec fn is_domain_char(c: char) -> bool {
    is_alnum(c) || c == '.' || c == '-'
}

/// An email address: a nonempty local part, `@`, a nonempty domain, a final
/// dot and a top-level label of at least two letters.
pub open spec fn spec_validate_email(s: Seq<char>) -> bool {
    let a = find_char(s, '@');
    &&& 0 < a < s.len()
    &&& forall|i: int| 0 <= i < a ==> is_local_char(#[trigger] s[i])
    &&& {
        let rest = s.skip(a + 1);
        let d = find_last_char(rest, '.');
        &&& d >= 1
        &&& forall|i: int| 0 <= i < d ==> is_domain_char(#[trigger] rest[i])
        &&& rest.len() - (d + 1) >= 2
        &&& forall|i: int| d < i < rest.len() ==> is_alpha(#[trigger] rest[i])
    }
}

/// Email validation against the fixed grammar.
pub fn validate_email(email: &str) -> (r: bool)
    ensures
        r == spec_validate_email(email@),
{
    let v = chars_of(email);
    let n = v.len();
    // position of the first '@'
    let mut a: usize = 0;
    while a < n && v[a] != '@'
        invariant
            a <= n,
            n == v@.len(),
            v@ == email@,
            forall|k: int| 0 <= k < a ==> v@[k] != '@',
        decreases n - a,
    {
        a = a + 1;
    }
    proof {
        if a < n {
            lemma_find_char_prefix_hit(v@, '@', a as int);
        } else {
            lemma_find_char_no_hit(v@, '@');
        }
    }
    if a == 0 || a >= n {
        return false;
    }
    let mut i: usize = 0;
    while i < a
        invariant
            i <= a,
            a < n,
            n == v@.len(),
            v@ == email@,
            forall|k: int| 0 <= k < i ==> is_local_char(#[trigger] v@[k]),
        decreases a - i,
    {
        let c = v[i];
        if !(alnum_char(c) || c == '.' || c == '_' || c == '%' || c == '+' || c == '-') {
            return false;
        }
        i = i + 1;
    }
    let ghost rest = email@.skip(a + 1);
    // position of the last '.' after the '@'
    let mut d: usize = n;
    let mut j: usize = n;
    while j > a + 1 && d == n
        invariant
            a + 1 <= j <= n,
            d <= n,
            n == v@.len(),
            v@ == email@,
            d == n ==> forall|k: int| j <= k < n ==> v@[k] != '.',
            d < n ==> d == j && v@[d as int] == '.' && forall|k: int|
                d < k < n ==> v@[k] != '.',
        decreases j + (if d == n { 1int } else { 0int }),
    {
        if v[j - 1] == '.' {
            d = j - 1;
            j = j - 1;
        } else {
            j = j - 1;
        }
    }
    proof {
        assert(forall|k: int| 0 <= k < rest.len() ==> rest[k] == #[trigger] email@[a + 1 + k]);
        if d < n {
            assert(rest[d - a - 1] == '.');
            lemma_find_last_char_hit(rest, '.', d - a - 1);
        } else {
            lemma_find_last_char(rest, '.');
            if find_last_char(rest, '.') >= 0 {
                assert(email@[a + 1 + find_last_char(rest, '.')] == '.');
            }
        }
    }
    if d == n {
        return false;
    }
    // the last dot must leave a nonempty domain and a 2+ letter label
    if d < a + 2 {
        return false;
    }
    if n - (d + 1) < 2 {
        return false;
    }
    let mut k: usize = a + 1;
    while k < d
        invariant
            a + 1 <= k <= d,
            d < n,
            n == v@.len(),
            v@ == email@,
            forall|t: int| a + 1 <= t < k ==> is_domain_char(#[trigger] v@[t]),
        decreases d - k,
    {
        let c = v[k];
        if !(alnum_char(c) || c == '.' || c == '-') {
            proof {
                assert(rest[k - a - 1] == email@[k as int]);
            }
            return false;
        }
        k = k + 1;
    }
    let mut t: usize = d + 1;
    while t < n
        invariant
            d + 1 <= t <= n,
            n == v@.len(),
            v@ == email@,
            forall|q: int| d < q < t ==> is_alpha(#[trigger] v@[q]),
        decreases n - t,
    {
        if !alpha_char(v[t]) {
            proof {
                assert(rest[t - a - 1] == email@[t as int]);
            }
            return false;
        }
        t = t + 1;
    }
    proof {
        let dpos = d - a - 1;
        assert forall|i: int| 0 <= i < dpos implies is_domain_char(rest[i]) by {
            assert(rest[i] == email@[a + 1 + i]);
        }
        assert forall|i: int| dpos < i < rest.len() implies is_alpha(rest[i]) by {
            assert(rest[i] == email@[a + 1 + i]);
        }
        assert(rest.len() - (dpos + 1) >= 2);
    }
    true
}

// ---------------------------------------------------------------------------
// Phone numbers
// ---------------------------------------------------------------------------

/// The cleaned form of a phone number from index `i` on: digits are kept
/// everywhere, and `+` is kept only while nothing has been kept yet, so
/// that at most one leading `+` survives.
pub open spec fn phone_clean_from(s: Seq<char>, none_kept: bool) -> Seq<char>
    decreases s.len(),
{
    if s.len() == 0 {
        Seq::empty()
    } else if is_digit(s[0]) {
        seq![s[0]] + phone_clean_from(s.skip(1), false)
    } else if s[0] == '+' && none_kept {
        seq!['+'] + phone_clean_from(s.skip(1), false)
    } else {
        phone_clean_from(s.skip(1), none_kept)
    }
}

/// What phone validation matches against: the digits of the input, with a
/// single leading `+` kept when one comes before any digit.
pub open spec fn phone_cleaned(s: Seq<char>) -> Seq<char> {
    phone_clean_from(s, true)
}

/// An E.164-like phone number: after cleaning, an optional leading `+`, a
/// nonzero first digit, and two to fifteen digits in all.
pub open spec fn spec_validate_phone(s: Seq<char>) -> bool {
    let cl = phone_cleaned(s);
    let t = if cl.len() > 0 && cl[0] == '+' {
        cl.skip(1)
    } else {
        cl
    };
    &&& 2 <= t.len() <= 15
    &&& all_digits(t)
    &&& digit_val(t[0]) >= 1
}

/// Phone validation: clean, then match the international pattern.
pub fn validate_phone(phone: &str) -> (r: bool)
    ensures
        r == spec_validate_phone(phone@),
{
    let v = chars_of(phone);
    let mut cl: Vec<char> = Vec::new();
    let mut none_kept = true;
    let mut i: usize = 0;
    proof {
        assert(v@.skip(0) =~= v@);
    }
    while i < v.len()
        invariant
            i <= v@.len(),
            v@ == phone@,
            none_kept == (cl@.len() == 0),
            cl@ + phone_clean_from(v@.skip(i as int), none_kept) == phone_cleaned(v@),
        decreases v@.len() - i,
    {
        proof {
            assert(v@.skip(i as int)[0] == v@[i as int]);
            assert(v@.skip(i as int).skip(1) =~= v@.skip(i + 1));
        }
        let ghost mid = cl@;
        let c = v[i];
        if digit_char(c) {
            cl.push(c);
            none_kept = false;
            proof {
                assert(cl@ =~= mid + seq![c]);
                assert(mid + (seq![c] + phone_clean_from(v@.skip(i + 1), false)) =~= cl@
                    + phone_clean_from(v@.skip(i + 1), false));
            }
        } else if c == '+' && none_kept {
            cl.push(c);
            none_kept = false;
            proof {
                assert(cl@ =~= mid + seq!['+']);
                assert(mid + (seq!['+'] + phone_clean_from(v@.skip(i + 1), false)) =~= cl@
                    + phone_clean_from(v@.skip(i + 1), false));
            }
        }
        i = i + 1;
    }
    proof {
        assert(v@.skip(v@.len() as int) =~= Seq::<char>::empty());
        assert(cl@ + Seq::<char>::empty() =~= cl@);
    }
    let start: usize = if cl.len() > 0 && cl[0] == '+' {
        1
    } else {
        0
    };
    let ghost t = if cl@.len() > 0 && cl@[0] == '+' {
        cl@.skip(1)
    } else {
        cl@
    };
    proof {
        assert(t =~= cl@.subrange(start as int, cl@.len() as int));
    }
    let len = cl.len() - start;
    if len < 2 || len > 15 {
        return false;
    }
    let mut j: usize = start;
    while j < cl.len()
        invariant
            start <= j <= cl@.len(),
            t == cl@.subrange(start as int, cl@.len() as int),
            forall|k: int| 0 <= k < j - start ==> is_digit(#[trigger] t[k]),
        decreases cl@.len() - j,
    {
        if !digit_char(cl[j]) {
            proof {
                assert(t[j - start] == cl@[j as int]);
            }
            return false;
        }
        j = j + 1;
    }
    proof {
        assert(t[0] == cl@[start as int]);
    }
    let first = cl[start] as u32;
    if first < 49 {
        return false;
    }
    true
}

// ---------------------------------------------------------------------------
// Postal codes
// ---------------------------------------------------------------------------

/// A US ZIP code: five digits with an optional dash and four more.
pub open spec fn us_postal(s: Seq<char>) -> bool {
    ||| (s.len() == 5 && all_digits(s))
    ||| (s.len() == 10 && s[5] == '-' && (forall|i: int|
        0 <= i < 5 ==> is_digit(#[trigger] s[i])) && (forall|i: int|
        6 <= i < 10 ==> is_digit(#[trigger] s[i])))
}

/// A Canadian postal code: letter-digit-letter, space, digit-letter-digit.
pub open spec fn ca_postal(s: Seq<char>) -> bool {
    &&& s.len() == 7
    &&& is_alpha(s[0])
    &&& is_digit(s[1])
    &&& is_alpha(s[2])
    &&& s[3] == ' '
    &&& is_digit(s[4])
    &&& is_alpha(s[5])
    &&& is_digit(s[6])
}

/// The outward half of a UK postcode: one or two uppercase letters, a
/// digit, and an optional letter-or-digit.
pub open spec fn uk_outward(p: Seq<char>) -> bool {
    ||| (p.len() == 2 && is_upper(p[0]) && is_digit(p[1]))
    ||| (p.len() == 3 && is_upper(p[0]) && ((is_upper(p[1]) && is_digit(p[2])) || (is_digit(
        p[1],
    ) && (is_upper(p[2]) || is_digit(p[2])))))
    ||| (p.len() == 4 && is_upper(p[0]) && is_upper(p[1]) && is_digit(p[2]) && (is_upper(p[3])
        || is_digit(p[3])))
}

/// A UK postcode: the outward half, a space, then digit-letter-letter.
pub open spec fn uk_postal(s: Seq<char>) -> bool {
    &&& 6 <= s.len() <= 8
    &&& s[s.len() - 4] == ' '
    &&& uk_outward(s.take(s.len() - 4))
    &&& is_digit(s[s.len() - 3])
    &&& is_upper(s[s.len() - 2])
    &&& is_upper(s[s.len() - 1])
}

/// A whitespace character of the generic postal fallback.
pub open spec fn is_postal_space(c: char) -> bool {
    c == ' ' || c == '\t' || c == '\n' || c == '\r' || c as u32 == 11 || c as u32 == 12
}

/// The generic fallback: three to ten characters, each alphanumeric,
/// whitespace or a hyphen.
pub open spec fn generic_postal(s: Seq<char>) -> bool {
    &&& 3 <= s.len() <= 10
    &&& forall|i: int|
        0 <= i < s.len() ==> is_alnum(#[trigger] s[i]) || is_postal_space(s[i]) || s[i] == '-'
}

/// Postal-code validation: the rule is picked by the uppercased country
/// code, and unknown countries fall through to the generic rule.
pub open spec fn spec_validate_postal(code: Seq<char>, country: Seq<char>) -> bool {
    let cu = upper_seq(country);
    if cu == "US"@ {
        us_postal(code)
    } else if cu == "CA"@ {
        ca_postal(code)
    } else if cu == "UK"@ || cu == "GB"@ {
        uk_postal(code)
    } else {
        generic_postal(code)
    }
}

fn us_postal_ok(v: &Vec<char>) -> (r: bool)
    ensures
        r == us_postal(v@),
{
    if v.len() == 5 {
        let mut i: usize = 0;
        while i < 5
            invariant
                i <= 5,
                v@.len() == 5,
                forall|k: int| 0 <= k < i ==> is_digit(#[trigger] v@[k]),
            decreases 5 - i,
        {
            if !digit_char(v[i]) {
                return false;
            }
            i = i + 1;
        }
        true
    } else if v.len() == 10 {
        if v[5] != '-' {
            return false;
        }
        let mut i: usize = 0;
        while i < 10
            invariant
                i <= 10,
                v@.len() == 10,
                forall|k: int| 0 <= k < i && k != 5 ==> is_digit(#[trigger] v@[k]),
            decreases 10 - i,
        {
            if i != 5 && !digit_char(v[i]) {
                return false;
            }
            i = i + 1;
        }
        true
    } else {
        false
    }
}

fn uk_outward_ok(v: &Vec<char>, end: usize) -> (r: bool)
    requires
        end <= v@.len(),
    ensures
        r == uk_outward(v@.take(end as int)),
{
    let ghost p = v@.take(end as int);
    if end == 2 {
        upper_char(v[0]) && digit_char(v[1])
    } else if end == 3 {
        upper_char(v[0]) && ((upper_char(v[1]) && digit_char(v[2])) || (digit_char(v[1]) && (
        upper_char(v[2]) || digit_char(v[2]))))
    } else if end == 4 {
        upper_char(v[0]) && upper_char(v[1]) && digit_char(v[2]) && (upper_char(v[3])
            || digit_char(v[3]))
    } else {
        false
    }
}

/// Postal-code validation for US, CA, UK/GB and a generic fallback.
pub fn validate_postal_code(code: &str, country: &str) -> (r: bool)
    ensures
        r == spec_validate_postal(code@, country@),
{
    let cv = chars_of(country);
    let cu = to_upper_vec(&cv);
    let v = chars_of(code);
    if eq_str(&cu, "US") {
        us_postal_ok(&v)
    } else if eq_str(&cu, "CA") {
        if v.len() != 7 {
            false
        } else {
            alpha_char(v[0]) && digit_char(v[1]) && alpha_char(v[2]) && v[3] == ' '
                && digit_char(v[4]) && alpha_char(v[5]) && digit_char(v[6])
        }
    } else if eq_str(&cu, "UK") || eq_str(&cu, "GB") {
        let n = v.len();
        if n < 6 || n > 8 {
            false
        } else if v[n - 4] != ' ' {
            false
        } else if !(digit_char(v[n - 3]) && upper_char(v[n - 2]) && upper_char(v[n - 1])) {
            false
        } else {
            uk_outward_ok(&v, n - 4)
        }
    } else {
        let n = v.len();
        if n < 3 || n > 10 {
            return false;
        }
        let mut i: usize = 0;
        while i < n
            invariant
                i <= n,
                n == v@.len(),
                v@ == code@,
                forall|k: int|
                    0 <= k < i ==> is_alnum(#[trigger] v@[k]) || is_postal_space(v@[k])
                        || v@[k] == '-',
            decreases n - i,
        {
            let c = v[i];
            let u = c as u32;
            if !(alnum_char(c) || c == ' ' || c == '\t' || c == '\n' || c == '\r' || u == 11
                || u == 12 || c == '-') {
                return false;
            }
            i = i + 1;
        }
        true
    }
}

} // verus!
