//! Query strings: `application/x-www-form-urlencoded` coding and ordered
//! key/value pairs.
//!
//! Keys and values are percent-encoded over their UTF-8 bytes, with space
//! written `+`; decoding reverses this, and an escape sequence that does
//! not form a UTF-8 scalar is passed through as its raw escaped text.
//! Repeated keys are preserved in order.

use vstd::prelude::*;
use vstd::string::*;
use vstd::utf8::codepoint_width_2;
use vstd::utf8::codepoint_width_3;
use vstd::utf8::codepoint_width_4;
use vstd::utf8::decode_first_codepoint;
use vstd::utf8::decode_first_scalar;
use vstd::utf8::encode_scalar;
use vstd::utf8::is_continuation_byte;
use vstd::utf8::is_leading_byte_width_1;
use vstd::utf8::is_leading_byte_width_2;
use vstd::utf8::is_leading_byte_width_3;
use vstd::utf8::is_leading_byte_width_4;
use vstd::utf8::length_of_first_codepoint;
use vstd::utf8::length_of_first_scalar;
use vstd::utf8::valid_first_scalar;
use crate::strutil::char_from_u32;
use crate::strutil::chars_of;
use crate::strutil::find_char;
use crate::strutil::hex_digit_char;
use crate::strutil::hex_val;
use crate::strutil::is_alnum;
use crate::strutil::is_hex_digit;
use crate::strutil::alnum_char;
use crate::strutil::lemma_find_char_no_hit;
use crate::strutil::lemma_find_char_prefix_hit;
use crate::strutil::split_char;
use crate::strutil::split_chars;
use crate::strutil::push_char;
use crate::strutil::string_of;
use crate::strutil::subvec;

verus! {

broadcast use vstd::string::group_string_axioms;

// ---------------------------------------------------------------------------
// Percent-encoding
// ---------------------------------------------------------------------------

/// A character written as itself in a form-urlencoded component.
pub open spec fn is_form_safe(c: char) -> bool {
    is_alnum(c) || c == '*' || c == '-' || c == '.' || c == '_'
}

/// The uppercase hex digit for a value 0 through 15.
pub open spec fn hex_upper_of(d: int) -> char {
    if d == 0 {
        '0'
    } else if d == 1 {
        '1'
    } else if d == 2 {
        '2'
    } else if d == 3 {
        '3'
    } else if d == 4 {
        '4'
    } else if d == 5 {
        '5'
    } else if d == 6 {
        '6'
    } else if d == 7 {
        '7'
    } else if d == 8 {
        '8'
    } else if d == 9 {
        '9'
    } else if d == 10 {
        'A'
    } else if d == 11 {
        'B'
    } else if d == 12 {
        'C'
    } else if d == 13 {
        'D'
    } else if d == 14 {
        'E'
    } else {
        'F'
    }
}

/// The three characters `%XX` escaping one byte.
pub open spec fn hex_escape(b: u8) -> Seq<char> {
    seq!['%', hex_upper_of(b as int / 16), hex_upper_of(b as int % 16)]
}

/// The escaped text of a whole byte string.
pub open spec fn escape_bytes(bs: Seq<u8>) -> Seq<char>
    decreases bs.len(),
{
    if bs.len() == 0 {
        Seq::empty()
    } else {
        hex_escape(bs[0]) + escape_bytes(bs.drop_first())
    }
}

/// One character of a component, encoded: safe characters stand as
/// themselves, space becomes `+`, and everything else is the escape of its
/// UTF-8 bytes.
pub open spec fn enc_char(c: char) -> Seq<char> {
    if c == ' ' {
        seq!['+']
    } else if is_form_safe(c) {
        seq![c]
    } else {
        escape_bytes(encode_scalar(c as u32))
    }
}

/// A whole component, encoded.
pub open spec fn pct_encode(s: Seq<char>) -> Seq<char>
    decreases s.len(),
{
    if s.len() == 0 {
        Seq::empty()
    } else {
        enc_char(s[0]) + pct_encode(s.drop_first())
    }
}

// ---------------------------------------------------------------------------
// Percent-decoding
// ---------------------------------------------------------------------------

/// The byte written by two hex digits.
pub open spec fn hbyte(c1: char, c2: char) -> u8 {
    (hex_val(c1) * 16 + hex_val(c2)) as u8
}

/// The byte width a UTF-8 leading byte announces, 0 when it is none.
pub open spec fn utf8_width(b: u8) -> int {
    if is_leading_byte_width_1(b) {
        1
    } else if is_leading_byte_width_2(b) {
        2
    } else if is_leading_byte_width_3(b) {
        3
    } else if is_leading_byte_width_4(b) {
        4
    } else {
        0
    }
}

/// The bytes of `k` consecutive `%XX` escapes at the front of `s`, when
/// they are all present.
pub open spec fn hex_groups(s: Seq<char>, k: int) -> Option<Seq<u8>>
    decreases k,
{
    if k <= 0 {
        Some(Seq::empty())
    } else if s.len() >= 3 && s[0] == '%' && is_hex_digit(s[1]) && is_hex_digit(s[2]) {
        match hex_groups(s.skip(3), k - 1) {
            Some(r) => Some(seq![hbyte(s[1], s[2])] + r),
            None => None,
        }
    } else {
        None
    }
}

/// A decoded component: `+` back to space, a hex escape back to its byte,
/// multi-byte escapes grouped into one scalar when they form a valid UTF-8
/// encoding, and anything else passed through as it stands.
pub open spec fn pct_decode(s: Seq<char>) -> Seq<char>
    decreases s.len(),
{
    if s.len() == 0 {
        Seq::empty()
    } else if s[0] == '+' {
        seq![' '] + pct_decode(s.skip(1))
    } else if s[0] == '%' && s.len() >= 3 && is_hex_digit(s[1]) && is_hex_digit(s[2]) {
        let b = hbyte(s[1], s[2]);
        let w = utf8_width(b);
        if w == 1 {
            seq![(b as u32) as char] + pct_decode(s.skip(3))
        } else if 2 <= w <= 4 && 3 * w <= s.len() && (hex_groups(s, w) matches Some(bs)
            && valid_first_scalar(bs) && length_of_first_scalar(bs) == w) {
            seq![(decode_first_scalar(hex_groups(s, w)->Some_0) as char)] + pct_decode(
                s.skip(3 * w),
            )
        } else {
            seq!['%', s[1], s[2]] + pct_decode(s.skip(3))
        }
    } else {
        seq![s[0]] + pct_decode(s.skip(1))
    }
}

// ---------------------------------------------------------------------------
// The encode/decode round trip
// ---------------------------------------------------------------------------

/// Hex digits written by `hex_upper_of` read back as their value.
proof fn lemma_hex_upper(d: int)
    requires
        0 <= d < 16,
    ensures
        is_hex_digit(hex_upper_of(d)),
        hex_val(hex_upper_of(d)) == d,
{
}

/// Escaped bytes are read back as the same bytes by `hex_groups`.
proof fn lemma_hex_groups_escape(bs: Seq<u8>, tail: Seq<char>)
    ensures
        escape_bytes(bs).len() == 3 * bs.len(),
        hex_groups(escape_bytes(bs) + tail, bs.len() as int) == Some(bs),
        (escape_bytes(bs) + tail).skip(3 * bs.len() as int) == tail,
    decreases bs.len(),
{
    let t = escape_bytes(bs) + tail;
    if bs.len() == 0 {
        assert(t =~= tail);
        assert(hex_groups(t, 0) == Some(Seq::<u8>::empty()));
        assert(Seq::<u8>::empty() =~= bs);
        assert(t.skip(0) =~= tail);
    } else {
        let b = bs[0];
        lemma_hex_upper(b as int / 16);
        lemma_hex_upper(b as int % 16);
        lemma_hex_groups_escape(bs.drop_first(), tail);
        assert(t[0] == '%');
        assert(t[1] == hex_upper_of(b as int / 16));
        assert(t[2] == hex_upper_of(b as int % 16));
        assert(hbyte(t[1], t[2]) == b) by {
            assert(hex_val(t[1]) == b as int / 16);
            assert(hex_val(t[2]) == b as int % 16);
        }
        assert(t.skip(3) =~= escape_bytes(bs.drop_first()) + tail);
        assert(hex_groups(t.skip(3), bs.len() - 1) == Some(bs.drop_first()));
        assert(seq![b] + bs.drop_first() =~= bs);
        assert(t.skip(3 * bs.len() as int) =~= (escape_bytes(bs.drop_first()) + tail).skip(
            3 * (bs.len() - 1),
        ));
    }
}

/// Decoding undoes encoding, one character at a time.
#[verifier::rlimit(60)]
#[verifier::spinoff_prover]
proof fn lemma_decode_enc_char(c: char, tail: Seq<char>)
    ensures
        pct_decode(enc_char(c) + tail) == seq![c] + pct_decode(tail),
{
    let t = enc_char(c) + tail;
    if c == ' ' {
        assert(t[0] == '+');
        assert(t.skip(1) =~= tail);
    } else if is_form_safe(c) {
        assert(t[0] == c);
        assert(t[0] != '+' && t[0] != '%');
        assert(t.skip(1) =~= tail);
    } else {
        vstd::utf8::char_is_scalar(c);
        let u = c as u32;
        let bs = encode_scalar(u);
        vstd::utf8::encode_utf8_first_scalar(seq![c]);
        assert(vstd::utf8::encode_utf8(seq![c]) =~= bs) by {
            assert(seq![c].drop_first() =~= Seq::<char>::empty());
            assert(seq![c][0] == c);
            assert(vstd::utf8::encode_utf8(Seq::<char>::empty()) =~= Seq::<u8>::empty());
            assert(vstd::utf8::encode_utf8(seq![c]) == encode_scalar(c as u32)
                + vstd::utf8::encode_utf8(seq![c].drop_first()));
            assert(bs + Seq::<u8>::empty() =~= bs);
        }
        assert(valid_first_scalar(bs));
        assert(length_of_first_scalar(bs) == bs.len());
        assert(decode_first_scalar(bs) == u);
        let w0 = bs.len() as int;
        assert(1 <= w0 <= 4);
        lemma_hex_groups_escape(bs, tail);
        assert(t =~= escape_bytes(bs) + tail);
        assert(t[0] == '%');
        lemma_hex_upper(bs[0] as int / 16);
        lemma_hex_upper(bs[0] as int % 16);
        assert(is_hex_digit(t[1]) && is_hex_digit(t[2]));
        assert(hbyte(t[1], t[2]) == bs[0]) by {
            assert(t[1] == hex_upper_of(bs[0] as int / 16));
            assert(t[2] == hex_upper_of(bs[0] as int % 16));
        }
        let b = hbyte(t[1], t[2]);
        assert(utf8_width(b) == w0) by {
            assert(length_of_first_codepoint(bs) == w0);
        }
        if w0 == 1 {
            assert(is_leading_byte_width_1(b));
            assert((b as u32) == u) by {
                assert(decode_first_codepoint(bs) == u);
                assert(decode_first_codepoint(bs) == (b & 0x7F) as u32);
                assert(b < 0x80 ==> (b & 0x7F) == b) by (bit_vector);
            }
            vstd::utf8::char_u32_cast(c, u);
            assert(t.skip(3) =~= tail);
            assert(pct_decode(t) =~= seq![c] + pct_decode(tail));
        } else {
            assert(3 * w0 <= t.len());
            assert(hex_groups(t, w0) == Some(bs));
            vstd::utf8::char_u32_cast(c, u);
            assert(pct_decode(t) =~= seq![c] + pct_decode(tail));
        }
    }
}

/// Decoding a fully encoded component recovers the original text exactly.
pub proof fn lemma_pct_round_trip(s: Seq<char>)
    ensures
        pct_decode(pct_encode(s)) == s,
    decreases s.len(),
{
    if s.len() == 0 {
        assert(pct_decode(pct_encode(s)) =~= s);
    } else {
        lemma_pct_round_trip(s.drop_first());
        lemma_decode_enc_char(s[0], pct_encode(s.drop_first()));
        assert(seq![s[0]] + s.drop_first() =~= s);
    }
}

// ---------------------------------------------------------------------------
// Executable coding
// ---------------------------------------------------------------------------

/// The uppercase hex digit character for a value below 16.
fn hex_upper_exec(d: u32) -> (r: char)
    requires
        d < 16,
    ensures
        r == hex_upper_of(d as int),
{
    if d == 0 {
        '0'
    } else if d == 1 {
        '1'
    } else if d == 2 {
        '2'
    } else if d == 3 {
        '3'
    } else if d == 4 {
        '4'
    } else if d == 5 {
        '5'
    } else if d == 6 {
        '6'
    } else if d == 7 {
        '7'
    } else if d == 8 {
        '8'
    } else if d == 9 {
        '9'
    } else if d == 10 {
        'A'
    } else if d == 11 {
        'B'
    } else if d == 12 {
        'C'
    } else if d == 13 {
        'D'
    } else if d == 14 {
        'E'
    } else {
        'F'
    }
}

/// The escaped text of a byte string, as executable characters.
fn escape_all(bs: &Vec<u8>) -> (r: Vec<char>)
    ensures
        r@ == escape_bytes(bs@),
{
    let mut out: Vec<char> = Vec::new();
    let mut j: usize = 0;
    proof {
        assert(bs@.skip(0) =~= bs@);
    }
    while j < bs.len()
        invariant
            j <= bs@.len(),
            out@ + escape_bytes(bs@.skip(j as int)) == escape_bytes(bs@),
        decreases bs@.len() - j,
    {
        let b = bs[j];
        proof {
            assert(bs@.skip(j as int)[0] == b);
            assert(bs@.skip(j as int).drop_first() =~= bs@.skip(j + 1));
        }
        let ghost mid = out@;
        out.push('%');
        out.push(hex_upper_exec(b as u32 / 16));
        out.push(hex_upper_exec(b as u32 % 16));
        proof {
            assert(out@ =~= mid + hex_escape(b));
            assert(mid + (hex_escape(b) + escape_bytes(bs@.skip(j + 1))) =~= out@ + escape_bytes(
                bs@.skip(j + 1),
            ));
        }
        j = j + 1;
    }
    proof {
        assert(bs@.skip(bs@.len() as int) =~= Seq::<u8>::empty());
        assert(out@ + Seq::<char>::empty() =~= out@);
    }
    out
}

/// Percent-encode one component.
pub fn encode_component(v: &Vec<char>) -> (r: Vec<char>)
    ensures
        r@ == pct_encode(v@),
{
    let mut out: Vec<char> = Vec::new();
    let mut i: usize = 0;
    proof {
        assert(v@.skip(0) =~= v@);
    }
    while i < v.len()
        invariant
            i <= v@.len(),
            out@ + pct_encode(v@.skip(i as int)) == pct_encode(v@),
        decreases v@.len() - i,
    {
        let c = v[i];
        proof {
            assert(v@.skip(i as int).drop_first() =~= v@.skip(i + 1));
            assert(v@.skip(i as int)[0] == c);
        }
        let ghost mid = out@;
        if c == ' ' {
            out.push('+');
        } else if alnum_char(c) || c == '*' || c == '-' || c == '.' || c == '_' {
            out.push(c);
        } else {
            let mut one = String::new();
            push_char(&mut one, c);
            let bytes = one.as_str().as_bytes_vec();
            proof {
                assert(one@ =~= seq![c]);
                assert(bytes@ == vstd::utf8::encode_utf8(seq![c]));
                assert(vstd::utf8::encode_utf8(seq![c]) =~= encode_scalar(c as u32)) by {
                    assert(seq![c].drop_first() =~= Seq::<char>::empty());
                    assert(seq![c][0] == c);
                    assert(vstd::utf8::encode_utf8(Seq::<char>::empty()) =~= Seq::<u8>::empty());
                    assert(encode_scalar(c as u32) + Seq::<u8>::empty() =~= encode_scalar(
                        c as u32,
                    ));
                }
            }
            let esc = escape_all(&bytes);
            let mut j: usize = 0;
            while j < esc.len()
                invariant
                    j <= esc@.len(),
                    out@ == mid + esc@.take(j as int),
                decreases esc@.len() - j,
            {
                out.push(esc[j]);
                j = j + 1;
                proof {
                    assert(out@ =~= mid + esc@.take(j as int));
                }
            }
            proof {
                assert(esc@.take(esc@.len() as int) =~= esc@);
            }
        }
        proof {
            assert(out@ =~= mid + enc_char(c));
            assert(mid + (enc_char(c) + pct_encode(v@.skip(i + 1))) =~= (mid + enc_char(c))
                + pct_encode(v@.skip(i + 1)));
        }
        i = i + 1;
    }
    proof {
        assert(v@.skip(v@.len() as int) =~= Seq::<char>::empty());
        assert(out@ + Seq::<char>::empty() =~= out@);
    }
    out
}

/// The bytes of `k` escapes at `v[i..]`, mirroring `hex_groups`.
fn try_hex_groups(v: &Vec<char>, i: usize, k: usize) -> (r: Option<Vec<u8>>)
    requires
        i <= v@.len(),
    ensures
        match r {
            Some(bs) => hex_groups(v@.skip(i as int), k as int) == Some(bs@) && bs@.len() == k,
            None => hex_groups(v@.skip(i as int), k as int) is None,
        },
    decreases k,
{
    let ghost s = v@.skip(i as int);
    if k == 0 {
        proof {
            assert(hex_groups(s, 0) == Some(Seq::<u8>::empty()));
        }
        let out: Vec<u8> = Vec::new();
        proof {
            assert(out@ =~= Seq::<u8>::empty());
        }
        return Some(out);
    }
    if v.len() - i < 3 {
        return None;
    }
    let c0 = v[i];
    let c1 = v[i + 1];
    let c2 = v[i + 2];
    proof {
        assert(s[0] == c0 && s[1] == c1 && s[2] == c2);
    }
    if !(c0 == '%' && hex_digit_char(c1) && hex_digit_char(c2)) {
        return None;
    }
    let b = hex_value_exec(c1) * 16 + hex_value_exec(c2);
    proof {
        assert(s.skip(3) =~= v@.skip(i + 3));
    }
    match try_hex_groups(v, i + 3, k - 1) {
        Some(rest) => {
            let mut out: Vec<u8> = Vec::new();
            out.push(b);
            let mut j: usize = 0;
            while j < rest.len()
                invariant
                    j <= rest@.len(),
                    out@ == seq![b].add(rest@.take(j as int)),
                decreases rest@.len() - j,
            {
                out.push(rest[j]);
                j = j + 1;
                proof {
                    assert(out@ =~= seq![b].add(rest@.take(j as int)));
                }
            }
            proof {
                assert(rest@.take(rest@.len() as int) =~= rest@);
                assert(out@ =~= seq![hbyte(c1, c2)] + rest@);
            }
            Some(out)
        },
        None => None,
    }
}

/// The numeric value of a hex digit character.
fn hex_value_exec(c: char) -> (r: u8)
    requires
        is_hex_digit(c),
    ensures
        r == hex_val(c),
        r < 16,
{
    let u = c as u32;
    if 48 <= u && u <= 57 {
        (u - 48) as u8
    } else if 97 <= u && u <= 102 {
        (u - 87) as u8
    } else {
        (u - 55) as u8
    }
}

/// Percent-decode one component.
pub fn decode_component(v: &Vec<char>) -> (r: Vec<char>)
    ensures
        r@ == pct_decode(v@),
{
    let mut out: Vec<char> = Vec::new();
    let mut i: usize = 0;
    proof {
        assert(v@.skip(0) =~= v@);
    }
    while i < v.len()
        invariant
            i <= v@.len(),
            out@ + pct_decode(v@.skip(i as int)) == pct_decode(v@),
        decreases v@.len() - i,
    {
        let ghost s = v@.skip(i as int);
        let c = v[i];
        proof {
            assert(s[0] == c);
            assert(s.drop_first() =~= v@.skip(i + 1));
            assert(s.len() == v@.len() - i);
            if v@.len() - i >= 3 {
                assert(s[1] == v@[i + 1] && s[2] == v@[i + 2]);
            }
        }
        let ghost mid = out@;
        let mut step: usize = 1;
        if c == '+' {
            out.push(' ');
            proof {
                assert(s.skip(1) =~= v@.skip(i + 1));
                assert(out@ =~= mid + seq![' ']);
                assert(mid + (seq![' '] + pct_decode(v@.skip(i + 1))) =~= out@ + pct_decode(
                    v@.skip(i + 1),
                ));
            }
        } else if c == '%' && v.len() - i >= 3 && hex_digit_char(v[i + 1]) && hex_digit_char(
            v[i + 2],
        ) {
            proof {
                assert(s.skip(3) =~= v@.skip(i + 3));
            }
            let h1 = v[i + 1];
            let h2 = v[i + 2];
            let b: u8 = hex_value_exec(h1) * 16 + hex_value_exec(h2);
            proof {
                assert(b == hbyte(s[1], s[2]));
            }
            let w: usize = if b < 0x80 {
                1
            } else if 0xc0 <= b && b <= 0xdf {
                2
            } else if 0xe0 <= b && b <= 0xef {
                3
            } else if 0xf0 <= b && b <= 0xf7 {
                4
            } else {
                0
            };
            proof {
                assert(w as int == utf8_width(b) || (w == 0 && utf8_width(b) == 0));
            }
            let mut done = false;
            if w == 1 {
                match char_from_u32(b as u32) {
                    Some(ch) => {
                        proof {
                            vstd::utf8::char_u32_cast(ch, b as u32);
                            assert(ch == ((b as u32) as char));
                        }
                        out.push(ch);
                        step = 3;
                        done = true;
                        proof {
                            assert(out@ =~= mid + seq![(b as u32) as char]);
                            assert(mid + (seq![(b as u32) as char] + pct_decode(v@.skip(i + 3)))
                                =~= out@ + pct_decode(v@.skip(i + 3)));
                        }
                    },
                    None => {
                        proof {
                            assert(vstd::utf8::has_width_1_encoding(b as u32));
                            assert(false);
                        }
                    },
                }
            } else if w >= 2 && v.len() - i >= 3 * w {
                match try_hex_groups(v, i, w) {
                    Some(bs) => {
                        proof {
                            assert(hex_groups(s, w as int) == Some(bs@));
                        }
                        let mut conts = true;
                        let mut t: usize = 1;
                        while t < w
                            invariant
                                1 <= t <= w,
                                bs@.len() == w,
                                conts == forall|x: int|
                                    1 <= x < t ==> is_continuation_byte(#[trigger] bs@[x]),
                            decreases w - t,
                        {
                            let bb = bs[t];
                            if !(0x80 <= bb && bb <= 0xbf) {
                                conts = false;
                            }
                            t = t + 1;
                        }
                        if conts {
                            let x1: u8 = bs[1];
                            let x2: u8 = if w >= 3 {
                                bs[2]
                            } else {
                                0
                            };
                            let x3: u8 = if w == 4 {
                                bs[3]
                            } else {
                                0
                            };
                            let cp: u32 = if w == 2 {
                                (((b & 0x1f) as u32) << 6) | ((x1 & 0x3f) as u32)
                            } else if w == 3 {
                                (((b & 0x0f) as u32) << 12) | (((x1 & 0x3f) as u32) << 6) | ((x2
                                    & 0x3f) as u32)
                            } else {
                                (((b & 0x07) as u32) << 18) | (((x1 & 0x3f) as u32) << 12) | (((x2
                                    & 0x3f) as u32) << 6) | ((x3 & 0x3f) as u32)
                            };
                            proof {
                                if w == 2 {
                                    assert((((b & 0x1f) as u32) << 6) | ((x1 & 0x3f) as u32)
                                        <= 0x7ff) by (bit_vector);
                                } else if w == 3 {
                                    assert((((b & 0x0f) as u32) << 12) | (((x1 & 0x3f) as u32)
                                        << 6) | ((x2 & 0x3f) as u32) <= 0xffff) by (bit_vector);
                                }
                            }
                            proof {
                                assert(bs@[0] == b);
                                if w == 2 {
                                    assert(cp == codepoint_width_2(bs@[0], bs@[1]));
                                } else if w == 3 {
                                    assert(cp == codepoint_width_3(bs@[0], bs@[1], bs@[2]));
                                } else {
                                    assert(cp == codepoint_width_4(bs@[0], bs@[1], bs@[2], bs@[3]));
                                }
                                assert(cp == decode_first_codepoint(bs@));
                                assert(length_of_first_codepoint(bs@) == w as int);
                            }
                            let ok: bool = if w == 2 {
                                0x80 <= cp
                            } else if w == 3 {
                                0x800 <= cp
                            } else {
                                0x10000 <= cp && cp <= 0x10ffff
                            };
                            let ok2 = ok && !(0xd800 <= cp && cp <= 0xdfff);
                            if ok2 {
                                proof {
                                    assert(valid_first_scalar(bs@));
                                    assert(length_of_first_scalar(bs@) == w as int);
                                    assert(decode_first_scalar(bs@) == cp);
                                }
                                match char_from_u32(cp) {
                                    Some(ch) => {
                                        proof {
                                            vstd::utf8::char_u32_cast(ch, cp);
                                        }
                                        out.push(ch);
                                        step = 3 * w;
                                        done = true;
                                        proof {
                                            assert(s.skip(3 * w as int) =~= v@.skip(
                                                i + 3 * w as int,
                                            ));
                                            assert(out@ =~= mid + seq![(cp as char)]);
                                            assert(pct_decode(s) == seq![(cp as char)]
                                                + pct_decode(s.skip(3 * w as int)));
                                            assert(mid + (seq![(cp as char)] + pct_decode(
                                                v@.skip(i + 3 * w as int),
                                            )) =~= out@ + pct_decode(v@.skip(i + 3 * w as int)));
                                        }
                                    },
                                    None => {
                                        proof {
                                            assert(vstd::utf8::is_scalar(cp)) by {
                                                if w == 2 {
                                                    assert(vstd::utf8::has_width_2_encoding(cp));
                                                } else if w == 3 {
                                                    assert(vstd::utf8::has_width_3_encoding(cp));
                                                } else {
                                                    assert(vstd::utf8::has_width_4_encoding(cp));
                                                }
                                            }
                                            assert(false);
                                        }
                                    },
                                }
                            } else {
                                proof {
                                    assert(!valid_first_scalar(bs@));
                                }
                            }
                        } else {
                            proof {
                                let x0 = choose|x: int|
                                    1 <= x < w && !is_continuation_byte(#[trigger] bs@[x]);
                                assert(!valid_first_scalar(bs@));
                            }
                        }
                    },
                    None => {},
                }
                if !done {
                    out.push('%');
                    out.push(h1);
                    out.push(h2);
                    step = 3;
                    proof {
                        assert(pct_decode(s) == seq!['%', s[1], s[2]] + pct_decode(s.skip(3)));
                        assert(out@ =~= mid + seq!['%', s[1], s[2]]);
                        assert(mid + (seq!['%', s[1], s[2]] + pct_decode(v@.skip(i + 3))) =~= out@
                            + pct_decode(v@.skip(i + 3)));
                    }
                }
            } else {
                out.push('%');
                out.push(h1);
                out.push(h2);
                step = 3;
                proof {
                    assert(pct_decode(s) == seq!['%', s[1], s[2]] + pct_decode(s.skip(3)));
                    assert(out@ =~= mid + seq!['%', s[1], s[2]]);
                    assert(mid + (seq!['%', s[1], s[2]] + pct_decode(v@.skip(i + 3))) =~= out@
                        + pct_decode(v@.skip(i + 3)));
                }
            }
        } else {
            out.push(c);
            proof {
                assert(s.skip(1) =~= v@.skip(i + 1));
                assert(out@ =~= mid + seq![c]);
                assert(pct_decode(s) == seq![c] + pct_decode(s.skip(1)));
                assert(mid + (seq![c] + pct_decode(v@.skip(i + 1))) =~= out@ + pct_decode(
                    v@.skip(i + 1),
                ));
            }
        }
        i = i + step;
    }
    proof {
        assert(v@.skip(v@.len() as int) =~= Seq::<char>::empty());
        assert(out@ + Seq::<char>::empty() =~= out@);
    }
    out
}

// ---------------------------------------------------------------------------
// Query pairs
// ---------------------------------------------------------------------------

/// The key/value pair read from one `&`-separated piece: the text before
/// the first `=` is the key; a piece without `=` is a key with an empty
/// value.  Both halves are percent-decoded.
pub open spec fn pair_of(p: Seq<char>) -> (Seq<char>, Seq<char>) {
    let e = find_char(p, '=');
    if e == p.len() {
        (pct_decode(p), Seq::empty())
    } else {
        (pct_decode(p.take(e)), pct_decode(p.skip(e + 1)))
    }
}

/// The pairs of a piece list, empty pieces skipped.
pub open spec fn pairs_of(ps: Seq<Seq<char>>) -> Seq<(Seq<char>, Seq<char>)>
    decreases ps.len(),
{
    if ps.len() == 0 {
        Seq::empty()
    } else if ps[0].len() > 0 {
        seq![pair_of(ps[0])] + pairs_of(ps.drop_first())
    } else {
        pairs_of(ps.drop_first())
    }
}

/// The decoded pairs of a raw query string, order and duplicates kept.
pub open spec fn spec_decode_query(q: Seq<char>) -> Seq<(Seq<char>, Seq<char>)> {
    pairs_of(crate::strutil::split_char(q, '&'))
}

/// One pair, encoded: key `=` value.
pub open spec fn enc_pair(kv: (Seq<char>, Seq<char>)) -> Seq<char> {
    pct_encode(kv.0) + seq!['='] + pct_encode(kv.1)
}

/// The later pairs of a query, each preceded by `&`.
pub open spec fn amp_pairs(pairs: Seq<(Seq<char>, Seq<char>)>) -> Seq<char>
    decreases pairs.len(),
{
    if pairs.len() == 0 {
        Seq::empty()
    } else {
        seq!['&'] + enc_pair(pairs[0]) + amp_pairs(pairs.drop_first())
    }
}

/// The encoded serialization of a pair list, insertion order kept.
pub open spec fn spec_encode_query(pairs: Seq<(Seq<char>, Seq<char>)>) -> Seq<char> {
    if pairs.len() == 0 {
        Seq::empty()
    } else {
        enc_pair(pairs[0]) + amp_pairs(pairs.drop_first())
    }
}

/// Encoded component text never holds a separator or fragment marker.
proof fn lemma_escape_bytes_safe(bs: Seq<u8>)
    ensures
        forall|i: int|
            0 <= i < escape_bytes(bs).len() ==> (#[trigger] escape_bytes(bs)[i]) != '&'
                && escape_bytes(bs)[i] != '=' && escape_bytes(bs)[i] != '#',
    decreases bs.len(),
{
    if bs.len() > 0 {
        lemma_escape_bytes_safe(bs.drop_first());
        assert forall|i: int|
            0 <= i < escape_bytes(bs).len() implies (#[trigger] escape_bytes(bs)[i]) != '&'
            && escape_bytes(bs)[i] != '=' && escape_bytes(bs)[i] != '#' by {
            if i < 3 {
                assert(escape_bytes(bs)[i] == hex_escape(bs[0])[i]);
            } else {
                assert(escape_bytes(bs)[i] == escape_bytes(bs.drop_first())[i - 3]);
            }
        }
    }
}

/// Percent-encoded text never holds `&`, `=` or `#`.
proof fn lemma_pct_encode_safe(s: Seq<char>)
    ensures
        forall|i: int|
            0 <= i < pct_encode(s).len() ==> (#[trigger] pct_encode(s)[i]) != '&' && pct_encode(
                s,
            )[i] != '=' && pct_encode(s)[i] != '#',
    decreases s.len(),
{
    if s.len() > 0 {
        lemma_pct_encode_safe(s.drop_first());
        lemma_escape_bytes_safe(encode_scalar(s[0] as u32));
        assert forall|i: int|
            0 <= i < pct_encode(s).len() implies (#[trigger] pct_encode(s)[i]) != '&'
            && pct_encode(s)[i] != '=' && pct_encode(s)[i] != '#' by {
            if i < enc_char(s[0]).len() {
                assert(pct_encode(s)[i] == enc_char(s[0])[i]);
            } else {
                assert(pct_encode(s)[i] == pct_encode(s.drop_first())[i - enc_char(s[0]).len()]);
            }
        }
    }
}

/// One encoded pair reads back as the same pair.
proof fn lemma_pair_round_trip(kv: (Seq<char>, Seq<char>))
    ensures
        enc_pair(kv).len() > 0,
        pair_of(enc_pair(kv)) == kv,
        forall|i: int|
            0 <= i < enc_pair(kv).len() ==> (#[trigger] enc_pair(kv)[i]) != '&',
{
    let p = enc_pair(kv);
    let ek = pct_encode(kv.0);
    let ev = pct_encode(kv.1);
    lemma_pct_encode_safe(kv.0);
    lemma_pct_encode_safe(kv.1);
    assert(p =~= ek + (seq!['='] + ev));
    crate::url::lemma_find_char_app(ek, seq!['='] + ev, '=');
    assert((seq!['='] + ev)[0] == '=');
    let e = find_char(p, '=');
    assert(e == ek.len());
    assert(e < p.len());
    assert(p.take(e) =~= ek);
    assert(p.skip(e + 1) =~= ev);
    lemma_pct_round_trip(kv.0);
    lemma_pct_round_trip(kv.1);
    assert forall|i: int| 0 <= i < p.len() implies (#[trigger] p[i]) != '&' by {
        if i < ek.len() {
            assert(p[i] == ek[i]);
        } else if i == ek.len() {
            assert(p[i] == '=');
        } else {
            assert(p[i] == ev[i - ek.len() - 1]);
        }
    }
    assert(pair_of(p) == kv) by {
        assert(pct_decode(p.take(e)) == kv.0);
        assert(pct_decode(p.skip(e + 1)) == kv.1);
    }
}

/// Round trip: serializing a pair list and decoding the result gives back
/// the same ordered pairs, duplicate keys included.
pub proof fn lemma_query_pairs_round_trip(pairs: Seq<(Seq<char>, Seq<char>)>)
    ensures
        spec_decode_query(spec_encode_query(pairs)) == pairs,
    decreases pairs.len(),
{
    if pairs.len() == 0 {
        let q = spec_encode_query(pairs);
        assert(q.len() == 0);
        assert(find_char(q, '&') == 0);
        assert(split_char(q, '&') =~= seq![q]);
        assert(seq![q].drop_first() =~= Seq::<Seq<char>>::empty());
        assert(seq![q][0].len() == 0);
        assert(pairs_of(Seq::<Seq<char>>::empty()) =~= Seq::<(Seq<char>, Seq<char>)>::empty());
        assert(pairs_of(seq![q]) =~= Seq::<(Seq<char>, Seq<char>)>::empty());
        assert(spec_decode_query(q) =~= pairs);
    } else {
        let kv = pairs[0];
        lemma_pair_round_trip(kv);
        let p0 = enc_pair(kv);
        let q = spec_encode_query(pairs);
        if pairs.len() == 1 {
            assert(q =~= p0 + Seq::<char>::empty());
            assert(q =~= p0);
            lemma_find_char_no_hit(q, '&');
            assert(split_char(q, '&') =~= seq![q]);
            assert(pairs_of(seq![q]) =~= seq![pair_of(q)] + pairs_of(seq![q].drop_first()));
            assert(seq![q].drop_first() =~= Seq::<Seq<char>>::empty());
            assert(pairs_of(Seq::<Seq<char>>::empty()) =~= Seq::<(Seq<char>, Seq<char>)>::empty());
            assert(spec_decode_query(q) =~= pairs);
        } else {
            lemma_query_pairs_round_trip(pairs.drop_first());
            let rest = pairs.drop_first();
            let qrest = spec_encode_query(rest);
            assert(amp_pairs(rest) =~= seq!['&'] + enc_pair(rest[0]) + amp_pairs(
                rest.drop_first(),
            ));
            assert(qrest =~= enc_pair(rest[0]) + amp_pairs(rest.drop_first()));
            assert(q =~= p0 + (seq!['&'] + qrest));
            crate::url::lemma_find_char_app(p0, seq!['&'] + qrest, '&');
            assert((seq!['&'] + qrest)[0] == '&');
            let k = find_char(q, '&');
            assert(k == p0.len());
            assert(k < q.len());
            assert(q.take(k) =~= p0);
            assert(q.skip(k + 1) =~= qrest);
            assert(split_char(q, '&') == seq![p0] + split_char(qrest, '&'));
            let ps = split_char(q, '&');
            assert(ps[0] == p0);
            assert(ps.drop_first() =~= split_char(qrest, '&'));
            assert(p0.len() > 0);
            assert(pairs_of(ps) =~= seq![pair_of(p0)] + pairs_of(split_char(qrest, '&')));
            assert(pairs_of(split_char(qrest, '&')) == rest);
            assert(seq![pair_of(p0)] + rest =~= pairs);
        }
    }
}

/// The mathematical pairs of executable string pairs.
pub open spec fn pair_views(ps: Seq<(String, String)>) -> Seq<(Seq<char>, Seq<char>)> {
    Seq::new(ps.len(), |i: int| (ps[i].0@, ps[i].1@))
}

/// The decoded key/value pair of one raw query piece.
fn decode_piece(p: &Vec<char>) -> (r: (String, String))
    ensures
        (r.0@, r.1@) == pair_of(p@),
{
    let n = p.len();
    let mut e: usize = 0;
    while e < n && p[e] != '='
        invariant
            e <= n,
            n == p@.len(),
            forall|j: int| 0 <= j < e ==> p@[j] != '=',
        decreases n - e,
    {
        e = e + 1;
    }
    proof {
        if e < n {
            lemma_find_char_prefix_hit(p@, '=', e as int);
        } else {
            lemma_find_char_no_hit(p@, '=');
        }
        assert(find_char(p@, '=') == e);
    }
    if e == n {
        let key = decode_component(p);
        proof {
            assert(p@.skip(0) =~= p@);
        }
        (string_of(&key), String::new())
    } else {
        let kv = subvec(p, 0, e);
        let vv = subvec(p, e + 1, n);
        proof {
            assert(kv@ =~= p@.take(e as int));
            assert(vv@ =~= p@.skip(e + 1));
        }
        let key = decode_component(&kv);
        let val = decode_component(&vv);
        (string_of(&key), string_of(&val))
    }
}

/// The decoded query pairs of a URL, in order, duplicate keys kept.  A URL
/// without a query yields no pairs.
pub fn parse_query_params(url_str: &str) -> (r: Result<Vec<(String, String)>, crate::url::ParseError>)
    ensures
        match r {
            Ok(ps) => crate::url::spec_parse(url_str@) matches Some(u) && pair_views(ps@)
                == spec_decode_query(
                match u.query {
                    Some(q) => q,
                    None => Seq::empty(),
                },
            ),
            Err(_) => crate::url::spec_parse(url_str@) is None,
        },
{
    let u = match crate::url::parse(url_str) {
        Ok(u) => u,
        Err(e) => {
            return Err(e);
        },
    };
    let qv: Vec<char> = match &u.query {
        Some(q) => chars_of(q.as_str()),
        None => Vec::new(),
    };
    proof {
        match u@.query {
            Some(q) => {
                assert(qv@ == q);
            },
            None => {
                assert(qv@ =~= Seq::<char>::empty());
            },
        }
    }
    let pieces = split_chars(&qv, '&');
    let ghost ps = split_char(qv@, '&');
    let mut out: Vec<(String, String)> = Vec::new();
    let mut i: usize = 0;
    proof {
        assert(ps.skip(0) =~= ps);
        assert(pair_views(out@) =~= Seq::<(Seq<char>, Seq<char>)>::empty());
        assert(pair_views(out@) + pairs_of(ps) =~= pairs_of(ps));
    }
    while i < pieces.len()
        invariant
            i <= pieces@.len(),
            pieces.deep_view() == ps,
            pair_views(out@) + pairs_of(ps.skip(i as int)) == pairs_of(ps),
        decreases pieces@.len() - i,
    {
        proof {
            assert(ps.skip(i as int)[0] == ps[i as int]);
            assert(ps.skip(i as int).drop_first() =~= ps.skip(i + 1));
            assert(pieces@[i as int]@ == ps[i as int]);
        }
        let ghost mid = pair_views(out@);
        if pieces[i].len() > 0 {
            let pair = decode_piece(&pieces[i]);
            out.push(pair);
            proof {
                assert(pair_views(out@) =~= mid.push(pair_of(ps[i as int])));
                assert(mid + (seq![pair_of(ps[i as int])] + pairs_of(ps.skip(i + 1)))
                    =~= pair_views(out@) + pairs_of(ps.skip(i + 1)));
            }
        }
        i = i + 1;
    }
    proof {
        assert(ps.skip(ps.len() as int) =~= Seq::<Seq<char>>::empty());
        assert(pairs_of(Seq::<Seq<char>>::empty()) =~= Seq::<(Seq<char>, Seq<char>)>::empty());
        assert(pair_views(out@) + Seq::<(Seq<char>, Seq<char>)>::empty() =~= pair_views(out@));
    }
    Ok(out)
}

/// The encoded query text of a pair list.
fn encode_pairs(params: &Vec<(String, String)>) -> (r: Vec<char>)
    ensures
        r@ == spec_encode_query(pair_views(params@)),
{
    let ghost pv = pair_views(params@);
    let mut out: Vec<char> = Vec::new();
    if params.len() == 0 {
        proof {
            assert(out@ =~= spec_encode_query(pv));
        }
        return out;
    }
    let k0 = chars_of(params[0].0.as_str());
    let v0 = chars_of(params[0].1.as_str());
    let ek0 = encode_component(&k0);
    let ev0 = encode_component(&v0);
    let mut j: usize = 0;
    while j < ek0.len()
        invariant
            j <= ek0@.len(),
            out@ == ek0@.take(j as int),
        decreases ek0@.len() - j,
    {
        out.push(ek0[j]);
        j = j + 1;
        proof {
            assert(out@ =~= ek0@.take(j as int));
        }
    }
    out.push('=');
    let mut j2: usize = 0;
    while j2 < ev0.len()
        invariant
            j2 <= ev0@.len(),
            out@ == ek0@.push('=') + ev0@.take(j2 as int),
        decreases ev0@.len() - j2,
    {
        out.push(ev0[j2]);
        j2 = j2 + 1;
        proof {
            assert(out@ =~= ek0@.push('=') + ev0@.take(j2 as int));
        }
    }
    proof {
        assert(ek0@.take(ek0@.len() as int) =~= ek0@);
        assert(ev0@.take(ev0@.len() as int) =~= ev0@);
        assert(out@ =~= enc_pair(pv[0]));
        assert(pv.skip(1) =~= pv.drop_first());
    }
    let mut i: usize = 1;
    while i < params.len()
        invariant
            1 <= i <= params@.len(),
            pv == pair_views(params@),
            pv.len() == params@.len(),
            out@ + amp_pairs(pv.skip(i as int)) == spec_encode_query(pv),
        decreases params@.len() - i,
    {
        proof {
            assert(pv.skip(i as int)[0] == pv[i as int]);
            assert(pv.skip(i as int).drop_first() =~= pv.skip(i + 1));
        }
        let ghost mid = out@;
        out.push('&');
        let ki = chars_of(params[i].0.as_str());
        let vi = chars_of(params[i].1.as_str());
        let eki = encode_component(&ki);
        let evi = encode_component(&vi);
        let mut t: usize = 0;
        while t < eki.len()
            invariant
                t <= eki@.len(),
                out@ == mid.push('&') + eki@.take(t as int),
            decreases eki@.len() - t,
        {
            out.push(eki[t]);
            t = t + 1;
            proof {
                assert(out@ =~= mid.push('&') + eki@.take(t as int));
            }
        }
        out.push('=');
        let mut t2: usize = 0;
        while t2 < evi.len()
            invariant
                t2 <= evi@.len(),
                out@ == mid.push('&') + eki@.take(eki@.len() as int).push('=') + evi@.take(
                    t2 as int,
                ),
            decreases evi@.len() - t2,
        {
            out.push(evi[t2]);
            t2 = t2 + 1;
            proof {
                assert(out@ =~= mid.push('&') + eki@.take(eki@.len() as int).push('=')
                    + evi@.take(t2 as int));
            }
        }
        proof {
            assert(eki@.take(eki@.len() as int) =~= eki@);
            assert(evi@.take(evi@.len() as int) =~= evi@);
            assert(out@ =~= mid + (seq!['&'] + enc_pair(pv[i as int])));
            assert(mid + ((seq!['&'] + enc_pair(pv[i as int])) + amp_pairs(pv.skip(i + 1)))
                =~= out@ + amp_pairs(pv.skip(i + 1)));
        }
        i = i + 1;
    }
    proof {
        assert(pv.skip(pv.len() as int) =~= Seq::<(Seq<char>, Seq<char>)>::empty());
        assert(out@ + Seq::<char>::empty() =~= out@);
    }
    out
}

/// Rebuild a URL with its query replaced by the encoded pair list; the
/// path, host and fragment stay as parsed.
pub fn build_url_with_params(base_url: &str, params: &Vec<(String, String)>) -> (r: Result<
    String,
    crate::url::ParseError,
>)
    ensures
        match r {
            Ok(s) => crate::url::spec_parse(base_url@) matches Some(u) && s@
                == crate::url::spec_serialize(
                crate::url::UrlView { query: Some(spec_encode_query(pair_views(params@))), ..u },
            ),
            Err(_) => crate::url::spec_parse(base_url@) is None,
        },
{
    let u = match crate::url::parse(base_url) {
        Ok(u) => u,
        Err(e) => {
            return Err(e);
        },
    };
    let q = encode_pairs(params);
    let nu = crate::url::Url {
        scheme: u.scheme,
        host: u.host,
        port: u.port,
        path: u.path,
        query: Some(string_of(&q)),
        fragment: u.fragment,
    };
    Ok(nu.serialize())
}

/// An encoded query never holds a fragment marker.
proof fn lemma_encode_query_no_hash(pairs: Seq<(Seq<char>, Seq<char>)>)
    ensures
        forall|i: int|
            0 <= i < amp_pairs(pairs).len() ==> (#[trigger] amp_pairs(pairs)[i]) != '#',
        forall|i: int|
            0 <= i < spec_encode_query(pairs).len() ==> (#[trigger] spec_encode_query(pairs)[i])
                != '#',
    decreases pairs.len(),
{
    if pairs.len() > 0 {
        lemma_encode_query_no_hash(pairs.drop_first());
        lemma_pct_encode_safe(pairs[0].0);
        lemma_pct_encode_safe(pairs[0].1);
        let e = enc_pair(pairs[0]);
        assert forall|i: int| 0 <= i < e.len() implies (#[trigger] e[i]) != '#' by {
            if i < pct_encode(pairs[0].0).len() {
                assert(e[i] == pct_encode(pairs[0].0)[i]);
            } else if i == pct_encode(pairs[0].0).len() {
                assert(e[i] == '=');
            } else {
                assert(e[i] == pct_encode(pairs[0].1)[i - pct_encode(pairs[0].0).len() - 1]);
            }
        }
        let a = amp_pairs(pairs);
        assert forall|i: int| 0 <= i < a.len() implies (#[trigger] a[i]) != '#' by {
            if i == 0 {
                assert(a[0] == '&');
            } else if i <= e.len() {
                assert(a[i] == e[i - 1]);
            } else {
                assert(a[i] == amp_pairs(pairs.drop_first())[i - 1 - e.len()]);
            }
        }
        let q = spec_encode_query(pairs);
        assert forall|i: int| 0 <= i < q.len() implies (#[trigger] q[i]) != '#' by {
            if i < e.len() {
                assert(q[i] == e[i]);
            } else {
                assert(q[i] == amp_pairs(pairs.drop_first())[i - e.len()]);
            }
        }
    }
}

/// Round trip through a URL: replace a parsed URL's query with the
/// encoding of a pair list, serialize, and parse again — the query read
/// back decodes to exactly those pairs, order and duplicates included.
pub proof fn lemma_with_query_round_trip(
    b: Seq<char>,
    u: crate::url::UrlView,
    pairs: Seq<(Seq<char>, Seq<char>)>,
)
    requires
        crate::url::spec_parse(b) == Some(u),
    ensures
        ({
            let nu = crate::url::UrlView { query: Some(spec_encode_query(pairs)), ..u };
            &&& crate::url::spec_parse(crate::url::spec_serialize(nu)) == Some(nu)
            &&& spec_decode_query(spec_encode_query(pairs)) == pairs
        }),
{
    let nu = crate::url::UrlView { query: Some(spec_encode_query(pairs)), ..u };
    crate::url::lemma_spec_parse_wf(b);
    lemma_encode_query_no_hash(pairs);
    crate::url::lemma_serialize_parse(nu);
    lemma_query_pairs_round_trip(pairs);
}

} // verus!
