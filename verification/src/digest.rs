//! Digests: the SHA-1 of an object's canonical form, its 40 hexadecimal
//! characters, and the place in the object directory that it names.

use crate::error::StoreError;
use sha1::{Digest, Sha1};
use vstd::prelude::*;
use vstd::string::{StrSliceExecFns, StringExecFns};

verus! {

/// SHA-1 takes messages of fewer than 2^64 bits, that is 2^61 bytes.
pub open spec fn hashable(len: nat) -> bool {
    len < 0x2000_0000_0000_0000
}

/// The SHA-1 digest of `data`: what `sha1::Sha1::digest` returns for it.
pub uninterp spec fn sha1_of(data: Seq<u8>) -> Seq<u8>;

/// `Sha1::digest` of the `sha1` crate: hashes `data` in one go and hands the
/// 20 bytes out as an array. The digest is a function of the bytes alone.
/// Input of 2^61 bytes or more is left out: there the crate's count of
/// message bits overflows.
#[verifier::external_body]
fn sha1_digest(data: &[u8]) -> (out: [u8; 20])
    requires
        hashable(data@.len()),
    ensures
        out@ == sha1_of(data@),
{
    Sha1::digest(data).into()
}

/// The SHA-1 digest of `data`.
pub fn digest(data: &[u8]) -> (out: [u8; 20])
    requires
        hashable(data@.len()),
    ensures
        out@ == sha1_of(data@),
{
    sha1_digest(data)
}

/// The lower-case hexadecimal digit for a value below 16.
pub open spec fn hex_digit(value: int) -> char {
    if value == 0 {
        '0'
    } else if value == 1 {
        '1'
    } else if value == 2 {
        '2'
    } else if value == 3 {
        '3'
    } else if value == 4 {
        '4'
    } else if value == 5 {
        '5'
    } else if value == 6 {
        '6'
    } else if value == 7 {
        '7'
    } else if value == 8 {
        '8'
    } else if value == 9 {
        '9'
    } else if value == 10 {
        'a'
    } else if value == 11 {
        'b'
    } else if value == 12 {
        'c'
    } else if value == 13 {
        'd'
    } else if value == 14 {
        'e'
    } else {
        'f'
    }
}

/// `bytes` in hexadecimal: two lower-case digits for each byte, the high
/// half first.
pub open spec fn hex_of(bytes: Seq<u8>) -> Seq<char> {
    Seq::new(
        2 * bytes.len(),
        |i: int|
            if i % 2 == 0 {
                hex_digit(bytes[i / 2] as int / 16)
            } else {
                hex_digit(bytes[i / 2] as int % 16)
            },
    )
}

/// `hex::encode`: a string of two characters for each byte, taken from the
/// table `0123456789abcdef` by the byte's high and then its low four bits.
#[verifier::external_body]
fn hex_encode(bytes: &[u8]) -> (text: String)
    ensures
        text@ == hex_of(bytes@),
{
    hex::encode(bytes)
}

/// A digest as 40 lower-case hexadecimal characters.
pub fn to_hex(hash: &[u8; 20]) -> (text: String)
    ensures
        text@ == hex_of(hash@),
{
    hex_encode(hash.as_slice())
}

/// The value of a hexadecimal digit of either case.
pub open spec fn hex_value(c: char) -> Option<int> {
    if '0' <= c <= '9' {
        Some(c as int - '0' as int)
    } else if 'a' <= c <= 'f' {
        Some(c as int - 'a' as int + 10)
    } else if 'A' <= c <= 'F' {
        Some(c as int - 'A' as int + 10)
    } else {
        None
    }
}

/// Whether `text` spells a digest: 40 hexadecimal digits.
pub open spec fn is_digest_text(text: Seq<char>) -> bool {
    text.len() == 40 && forall|i: int| 0 <= i < 40 ==> hex_value(#[trigger] text[i]) is Some
}

/// The digest that 40 hexadecimal digits spell.
pub open spec fn digest_of_text(text: Seq<char>) -> Seq<u8> {
    Seq::new(20, |i: int| (16 * hex_value(text[2 * i])->0 + hex_value(text[2 * i + 1])->0) as u8)
}

/// What `to_hex` writes, `parse_digest` reads back.
pub proof fn lemma_parse_inverts_hex(hash: Seq<u8>)
    requires
        hash.len() == 20,
    ensures
        is_digest_text(hex_of(hash)),
        digest_of_text(hex_of(hash)) == hash,
{
    let text = hex_of(hash);
    assert forall|i: int| 0 <= i < 40 implies hex_value(#[trigger] text[i]) is Some by {
        lemma_hex_digit_value(hash[i / 2] as int / 16);
        lemma_hex_digit_value(hash[i / 2] as int % 16);
    }
    assert forall|i: int| 0 <= i < 20 implies #[trigger] digest_of_text(text)[i] == hash[i] by {
        lemma_hex_digit_value(hash[i] as int / 16);
        lemma_hex_digit_value(hash[i] as int % 16);
        assert((2 * i) / 2 == i && (2 * i) % 2 == 0);
        assert((2 * i + 1) / 2 == i && (2 * i + 1) % 2 == 1);
    }
    assert(digest_of_text(text) =~= hash);
}

/// A digit of `hex_digit` has the value it was made from.
pub proof fn lemma_hex_digit_value(value: int)
    requires
        0 <= value < 16,
    ensures
        hex_value(hex_digit(value)) == Some(value),
        '0' <= hex_digit(value) <= '9' || 'a' <= hex_digit(value) <= 'f',
{
}

/// Reads one hexadecimal digit.
fn hex_digit_value(c: char) -> (value: Option<u8>)
    ensures
        match hex_value(c) {
            Some(v) => value == Some(v as u8) && 0 <= v < 16,
            None => value is None,
        },
{
    if '0' <= c && c <= '9' {
        Some(c as u8 - 48)
    } else if 'a' <= c && c <= 'f' {
        Some(c as u8 - 97 + 10)
    } else if 'A' <= c && c <= 'F' {
        Some(c as u8 - 65 + 10)
    } else {
        None
    }
}

/// Reads a digest from its 40 hexadecimal digits, of either case. Fails with
/// `InvalidDigest` on any other text.
pub fn parse_digest(text: &str) -> (out: Result<[u8; 20], StoreError>)
    ensures
        is_digest_text(text@) ==> (out matches Ok(hash) && hash@ == digest_of_text(text@)),
        !is_digest_text(text@) ==> (out matches Err(e) && e == StoreError::InvalidDigest),
{
    if text.unicode_len() != 40 {
        return Err(StoreError::InvalidDigest);
    }
    let mut hash: [u8; 20] = [0u8; 20];
    let mut i: usize = 0;
    while i < 20
        invariant
            0 <= i <= 20,
            text@.len() == 40,
            forall|j: int| 0 <= j < 2 * i ==> hex_value(#[trigger] text@[j]) is Some,
            forall|j: int| 0 <= j < i ==> #[trigger] hash@[j] == digest_of_text(text@)[j],
        decreases 20 - i,
    {
        let high = match hex_digit_value(text.get_char(2 * i)) {
            Some(v) => v,
            None => {
                return Err(StoreError::InvalidDigest);
            },
        };
        let low = match hex_digit_value(text.get_char(2 * i + 1)) {
            Some(v) => v,
            None => {
                return Err(StoreError::InvalidDigest);
            },
        };
        hash[i] = 16 * high + low;
        i = i + 1;
    }
    assert(hash@ =~= digest_of_text(text@));
    Ok(hash)
}

/// Whether `c` is a digit that `to_hex` writes: of the lower case.
pub open spec fn is_lower_hex(c: char) -> bool {
    '0' <= c <= '9' || 'a' <= c <= 'f'
}

/// A digest spelled in lower case is spelled as `to_hex` spells it.
pub proof fn lemma_hex_inverts_parse(text: Seq<char>)
    requires
        text.len() == 40,
        forall|i: int| 0 <= i < 40 ==> is_lower_hex(#[trigger] text[i]),
    ensures
        is_digest_text(text),
        hex_of(digest_of_text(text)) == text,
{
    let hash = digest_of_text(text);
    assert forall|i: int| 0 <= i < 40 implies #[trigger] hex_of(hash)[i] == text[i] by {
        let k = i / 2;
        assert(is_lower_hex(text[2 * k]) && is_lower_hex(text[2 * k + 1]));
        let high = hex_value(text[2 * k])->0;
        let low = hex_value(text[2 * k + 1])->0;
        assert(0 <= high < 16 && 0 <= low < 16);
        assert(hash[k] == 16 * high + low);
        assert((16 * high + low) / 16 == high && (16 * high + low) % 16 == low);
        lemma_lower_hex_digit(text[2 * k]);
        lemma_lower_hex_digit(text[2 * k + 1]);
    }
    assert(hex_of(hash) =~= text);
}

/// A lower-case digit is the digit of its value.
pub proof fn lemma_lower_hex_digit(c: char)
    requires
        is_lower_hex(c),
    ensures
        hex_digit(hex_value(c)->0) == c,
{
}

/// Where an object is kept below the object directory: a directory named by
/// the first two characters of its digest, and in it a file named by the
/// other 38.
pub struct ObjectLocation {
    pub directory: String,
    pub file: String,
}

/// The place that a digest names.
pub fn object_location(hash: &[u8; 20]) -> (at: ObjectLocation)
    ensures
        at.directory@ == hex_of(hash@).take(2),
        at.file@ == hex_of(hash@).skip(2),
{
    let text = to_hex(hash);
    let directory = String::from_str(text.as_str().substring_char(0, 2));
    let file = String::from_str(text.as_str().substring_char(2, 40));
    ObjectLocation { directory, file }
}

/// The path of the object `hash` below the object directory `root`.
pub open spec fn path_of(root: Seq<char>, hash: Seq<u8>) -> Seq<char> {
    root + seq!['/'] + hex_of(hash).take(2) + seq!['/'] + hex_of(hash).skip(2)
}

/// For a digest spelled in lower case, the path is the root, the first two
/// characters of the digest and the other 38, with a `/` between them.
pub proof fn lemma_path_of_text(root: Seq<char>, text: Seq<char>)
    requires
        text.len() == 40,
        forall|i: int| 0 <= i < 40 ==> is_lower_hex(#[trigger] text[i]),
    ensures
        path_of(root, digest_of_text(text)) == root + seq!['/'] + text.take(2) + seq!['/']
            + text.skip(2),
{
    lemma_hex_inverts_parse(text);
}

/// The path of the object that `digest` names, below the object directory
/// `root`. Fails with `InvalidDigest` where `digest` is not 40 hexadecimal
/// digits. Digits of the upper case are taken, and written in the lower.
pub fn object_path(root: &str, digest: &str) -> (out: Result<String, StoreError>)
    ensures
        is_digest_text(digest@) ==> (out matches Ok(path) && path@ == path_of(
            root@,
            digest_of_text(digest@),
        )),
        !is_digest_text(digest@) ==> (out matches Err(e) && e == StoreError::InvalidDigest),
{
    let hash = match parse_digest(digest) {
        Ok(hash) => hash,
        Err(e) => {
            return Err(e);
        },
    };
    let at = object_location(&hash);
    proof {
        reveal_strlit("/");
        assert("/"@ =~= seq!['/']);
    }
    let mut path = String::from_str(root);
    path.append("/");
    path.append(at.directory.as_str());
    path.append("/");
    path.append(at.file.as_str());
    Ok(path)
}

} // verus!
