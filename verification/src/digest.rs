//! Hashes, checksums, base64 and UUIDs.
//!
//! The cryptographic work is done by outside crates behind thin trusted
//! wrappers; what the library adds around them — hex formatting, checksum
//! truncation and comparison, the UTF-8 step of base64 decoding — is
//! verified.

use vstd::prelude::*;
use vstd::string::*;
use vstd::utf8::decode_utf8;
use vstd::utf8::encode_utf8;
use vstd::utf8::valid_utf8;
use crate::strutil::chars_of;
use crate::strutil::eq_str;
use crate::strutil::string_of;
use crate::strutil::subvec;

verus! {

broadcast use vstd::string::group_string_axioms;

/// What SHA-256 digests a text to; a function of the characters alone.
pub uninterp spec fn sha256_of(s: Seq<char>) -> Seq<u8>;

/// What standard base64 encoding writes for a byte string.
pub uninterp spec fn base64_of(b: Seq<u8>) -> Seq<char>;

/// What standard base64 decoding reads from a text, when it reads anything.
pub uninterp spec fn base64_decode_of(s: Seq<char>) -> Option<Seq<u8>>;

/// Whether a text parses as a UUID.
pub uninterp spec fn uuid_parses(s: Seq<char>) -> bool;

/// Relies on sha2's `Sha256`: the digest of the input bytes, 32 bytes
/// long, depending on the input alone.
#[verifier::external_body]
fn sha256_digest(input: &str) -> (r: Vec<u8>)
    ensures
        r@ == sha256_of(input@),
        r@.len() == 32,
{
    let mut hasher = <sha2::Sha256 as sha2::Digest>::new();
    sha2::Digest::update(&mut hasher, input.as_bytes());
    sha2::Digest::finalize(hasher).to_vec()
}

/// Relies on base64's `encode`: the standard-alphabet, padded encoding of
/// the input bytes, four characters for every three bytes, and decoding
/// inverts it.
#[verifier::external_body]
pub fn encode_base64(input: &str) -> (r: String)
    ensures
        r@ == base64_of(encode_utf8(input@)),
        r@.len() == 4 * ((encode_utf8(input@).len() + 2) / 3),
        base64_decode_of(r@) == Some(encode_utf8(input@)),
{
    base64::encode(input.as_bytes())
}

/// Relies on base64's `decode`: reads the standard encoding back to bytes,
/// failing exactly on text that is not in it.
#[verifier::external_body]
fn base64_decode(input: &str) -> (r: Option<Vec<u8>>)
    ensures
        match r {
            Some(v) => base64_decode_of(input@) == Some(v@),
            None => base64_decode_of(input@) is None,
        },
{
    match base64::decode(input) {
        Ok(v) => Some(v),
        Err(_) => None,
    }
}

/// Relies on `String::from_utf8`: succeeds exactly on valid UTF-8, and
/// then holds exactly the given bytes.
#[verifier::external_body]
fn string_from_bytes(v: Vec<u8>) -> (r: Option<String>)
    ensures
        r is Some <==> valid_utf8(v@),
        r matches Some(s) ==> s@ == decode_utf8(v@),
{
    match String::from_utf8(v) {
        Ok(s) => Some(s),
        Err(_) => None,
    }
}

/// Relies on uuid's `Uuid::new_v4` and its hyphenated text form: every
/// outcome is 36 characters, with `-` at positions 8, 13, 18 and 23 and
/// lowercase hex digits elsewhere.
#[verifier::external_body]
pub fn generate_uuid() -> (r: String)
    ensures
        r@.len() == 36,
        r@[8] == '-' && r@[13] == '-' && r@[18] == '-' && r@[23] == '-',
        forall|i: int|
            0 <= i < 36 && i != 8 && i != 13 && i != 18 && i != 23 ==> crate::strutil::is_digit(
                #[trigger] r@[i],
            ) || (97 <= r@[i] as u32 <= 102),
{
    uuid::Uuid::new_v4().to_string()
}

/// Relies on uuid's `Uuid::parse_str`: acceptance depends on the text
/// alone.
#[verifier::external_body]
pub fn is_valid_uuid(uuid_str: &str) -> (r: bool)
    ensures
        r == uuid_parses(uuid_str@),
{
    uuid::Uuid::parse_str(uuid_str).is_ok()
}

/// A base64 decoding failure: the text is not base64, or its bytes are
/// not UTF-8.
#[derive(Debug, PartialEq, Eq, Structural, Clone, Copy)]
pub enum DecodeBase64Error {
    InvalidBase64,
    InvalidUtf8,
}

/// Decode base64 text to the string its bytes spell.
pub fn decode_base64(input: &str) -> (r: Result<String, DecodeBase64Error>)
    ensures
        match r {
            Ok(s) => base64_decode_of(input@) matches Some(b) && valid_utf8(b) && s@
                == decode_utf8(b),
            Err(DecodeBase64Error::InvalidBase64) => base64_decode_of(input@) is None,
            Err(DecodeBase64Error::InvalidUtf8) => base64_decode_of(input@) matches Some(b)
                && !valid_utf8(b),
        },
{
    let bytes = match base64_decode(input) {
        Some(v) => v,
        None => {
            return Err(DecodeBase64Error::InvalidBase64);
        },
    };
    match string_from_bytes(bytes) {
        Some(s) => Ok(s),
        None => Err(DecodeBase64Error::InvalidUtf8),
    }
}

/// The lowercase hex digit for a value 0 through 15.
pub open spec fn hex_lower_of(d: int) -> char {
    if d == 0 {
        '0'
    } else if d == 1 {
        '1'
    } else if d == 2 {
        '2'
    } else if d == 3 {
        '3'
    } else if d == 4 {
        '4'
    } else if d == 5 {
        '5'
    } else if d == 6 {
        '6'
    } else if d == 7 {
        '7'
    } else if d == 8 {
        '8'
    } else if d == 9 {
        '9'
    } else if d == 10 {
        'a'
    } else if d == 11 {
        'b'
    } else if d == 12 {
        'c'
    } else if d == 13 {
        'd'
    } else if d == 14 {
        'e'
    } else {
        'f'
    }
}

/// The lowercase hex text of a byte string, two digits per byte.
pub open spec fn hex_lower_seq(bs: Seq<u8>) -> Seq<char>
    decreases bs.len(),
{
    if bs.len() == 0 {
        Seq::empty()
    } else {
        seq![hex_lower_of(bs[0] as int / 16), hex_lower_of(bs[0] as int % 16)] + hex_lower_seq(
            bs.drop_first(),
        )
    }
}

/// Hex text is twice as long as its bytes.
pub proof fn lemma_hex_lower_len(bs: Seq<u8>)
    ensures
        hex_lower_seq(bs).len() == 2 * bs.len(),
    decreases bs.len(),
{
    if bs.len() > 0 {
        lemma_hex_lower_len(bs.drop_first());
    }
}

fn hex_lower_exec(d: u32) -> (r: char)
    requires
        d < 16,
    ensures
        r == hex_lower_of(d as int),
{
    if d == 0 {
        '0'
    } else if d == 1 {
        '1'
    } else if d == 2 {
        '2'
    } else if d == 3 {
        '3'
    } else if d == 4 {
        '4'
    } else if d == 5 {
        '5'
    } else if d == 6 {
        '6'
    } else if d == 7 {
        '7'
    } else if d == 8 {
        '8'
    } else if d == 9 {
        '9'
    } else if d == 10 {
        'a'
    } else if d == 11 {
        'b'
    } else if d == 12 {
        'c'
    } else if d == 13 {
        'd'
    } else if d == 14 {
        'e'
    } else {
        'f'
    }
}

/// The lowercase hex characters of a byte string.
fn to_hex_lower(bs: &Vec<u8>) -> (r: Vec<char>)
    ensures
        r@ == hex_lower_seq(bs@),
{
    let mut out: Vec<char> = Vec::new();
    let mut j: usize = 0;
    proof {
        assert(bs@.skip(0) =~= bs@);
    }
    while j < bs.len()
        invariant
            j <= bs@.len(),
            out@ + hex_lower_seq(bs@.skip(j as int)) == hex_lower_seq(bs@),
        decreases bs@.len() - j,
    {
        let b = bs[j];
        proof {
            assert(bs@.skip(j as int)[0] == b);
            assert(bs@.skip(j as int).drop_first() =~= bs@.skip(j + 1));
        }
        let ghost mid = out@;
        out.push(hex_lower_exec(b as u32 / 16));
        out.push(hex_lower_exec(b as u32 % 16));
        proof {
            assert(out@ =~= mid + seq![
                hex_lower_of(b as int / 16),
                hex_lower_of(b as int % 16),
            ]);
            assert(mid + (seq![hex_lower_of(b as int / 16), hex_lower_of(b as int % 16)]
                + hex_lower_seq(bs@.skip(j + 1))) =~= out@ + hex_lower_seq(bs@.skip(j + 1)));
        }
        j = j + 1;
    }
    proof {
        assert(bs@.skip(bs@.len() as int) =~= Seq::<u8>::empty());
        assert(out@ + Seq::<char>::empty() =~= out@);
    }
    out
}

/// The SHA-256 digest of the input, written as 64 lowercase hex digits.
pub fn sha256_hash(input: &str) -> (r: String)
    ensures
        r@ == hex_lower_seq(sha256_of(input@)),
        r@.len() == 64,
{
    let d = sha256_digest(input);
    let hx = to_hex_lower(&d);
    proof {
        lemma_hex_lower_len(d@);
    }
    string_of(&hx)
}

/// The running 31-multiplier hash over a byte string, modulo 2^32.
pub open spec fn hash_from(acc: int, bs: Seq<u8>) -> int
    decreases bs.len(),
{
    if bs.len() == 0 {
        acc
    } else {
        hash_from((acc * 31 + bs[0]) % 0x100000000, bs.drop_first())
    }
}

/// A simple non-cryptographic hash: each UTF-8 byte folded in with a
/// multiplier of 31, wrapping at 32 bits.
pub fn simple_hash(input: &str) -> (r: u32)
    ensures
        r == hash_from(0, encode_utf8(input@)),
{
    let bytes = input.as_bytes_vec();
    let mut h: u32 = 0;
    let mut i: usize = 0;
    proof {
        assert(bytes@.skip(0) =~= bytes@);
    }
    while i < bytes.len()
        invariant
            i <= bytes@.len(),
            hash_from(h as int, bytes@.skip(i as int)) == hash_from(0, bytes@),
        decreases bytes@.len() - i,
    {
        let b = bytes[i];
        proof {
            assert(bytes@.skip(i as int)[0] == b);
            assert(bytes@.skip(i as int).drop_first() =~= bytes@.skip(i + 1));
        }
        let wide: u64 = h as u64 * 31 + b as u64;
        h = (wide % 0x100000000) as u32;
        i = i + 1;
    }
    proof {
        assert(bytes@.skip(bytes@.len() as int) =~= Seq::<u8>::empty());
    }
    h
}

/// A short data-integrity checksum: the first eight hex digits of the
/// SHA-256 digest.
pub fn generate_checksum(data: &str) -> (r: String)
    ensures
        r@ == hex_lower_seq(sha256_of(data@)).take(8),
{
    let h = sha256_hash(data);
    let hv = chars_of(h.as_str());
    let first = subvec(&hv, 0, 8);
    proof {
        assert(first@ =~= hex_lower_seq(sha256_of(data@)).take(8));
    }
    string_of(&first)
}

/// Does the data hash to the given checksum?
pub fn verify_checksum(data: &str, checksum: &str) -> (r: bool)
    ensures
        r == (checksum@ == hex_lower_seq(sha256_of(data@)).take(8)),
{
    let computed = generate_checksum(data);
    let cv = chars_of(computed.as_str());
    eq_str(&cv, checksum)
}

} // verus!