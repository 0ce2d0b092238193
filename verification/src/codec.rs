//! The canonical form of an object: `<type> <length>`, a NUL, then the
//! payload. It is what gets hashed, and what a stored object inflates to.

use crate::bytes::{
    copy_range, extend_bytes, find_byte, lemma_find_byte, lemma_find_byte_is, position_of,
};
use crate::decimal::{
    decimal_digits, decimal_value, format_decimal, is_decimal, lemma_digits_of_u64,
    lemma_digits_spell, parse_decimal,
};
use crate::error::StoreError;
use vstd::prelude::*;
use vstd::slice::slice_subrange;
use vstd::string::StrSliceExecFns;

verus! {

/// The NUL that ends a header is looked for among this many leading bytes
/// and no further. The longest header that `encode_object` writes, with a
/// 64-bit length, ends at index 25.
pub const HEADER_SCAN_LIMIT: usize = 32;

/// The two kinds of object.
#[derive(Clone, Copy, Debug, PartialEq, Eq, Structural)]
pub enum ObjectKind {
    /// File content, kept as it is.
    Blob,
    /// A directory: a sequence of entries.
    Tree,
}

impl ObjectKind {
    /// The type token of the kind: `blob` or `tree` in ASCII.
    pub open spec fn tag(self) -> Seq<u8> {
        match self {
            ObjectKind::Blob => seq![98u8, 108u8, 111u8, 98u8],
            ObjectKind::Tree => seq![116u8, 114u8, 101u8, 101u8],
        }
    }

    /// The kind that a type token stands for.
    pub open spec fn of_tag(tag: Seq<u8>) -> Option<ObjectKind> {
        if tag =~= ObjectKind::Blob.tag() {
            Some(ObjectKind::Blob)
        } else if tag =~= ObjectKind::Tree.tag() {
            Some(ObjectKind::Tree)
        } else {
            None
        }
    }

    /// The kind that the name `blob` or `tree` stands for.
    pub open spec fn named(name: Seq<char>) -> Option<ObjectKind> {
        if name =~= seq!['b', 'l', 'o', 'b'] {
            Some(ObjectKind::Blob)
        } else if name =~= seq!['t', 'r', 'e', 'e'] {
            Some(ObjectKind::Tree)
        } else {
            None
        }
    }

    /// Reads a kind from its name.
    pub fn from_name(name: &str) -> (kind: Option<ObjectKind>)
        ensures
            kind == ObjectKind::named(name@),
    {
        if name.unicode_len() != 4 {
            return None;
        }
        let c0 = name.get_char(0);
        let c1 = name.get_char(1);
        let c2 = name.get_char(2);
        let c3 = name.get_char(3);
        if c0 == 'b' && c1 == 'l' && c2 == 'o' && c3 == 'b' {
            assert(name@ =~= seq!['b', 'l', 'o', 'b']);
            Some(ObjectKind::Blob)
        } else if c0 == 't' && c1 == 'r' && c2 == 'e' && c3 == 'e' {
            assert(name@ =~= seq!['t', 'r', 'e', 'e']);
            Some(ObjectKind::Tree)
        } else {
            None
        }
    }

    /// Reads a kind from a type token.
    pub fn from_tag(tag: &[u8]) -> (kind: Option<ObjectKind>)
        ensures
            kind == ObjectKind::of_tag(tag@),
    {
        if tag.len() != 4 {
            return None;
        }
        if tag[0] == 98 && tag[1] == 108 && tag[2] == 111 && tag[3] == 98 {
            assert(tag@ =~= ObjectKind::Blob.tag());
            Some(ObjectKind::Blob)
        } else if tag[0] == 116 && tag[1] == 114 && tag[2] == 101 && tag[3] == 101 {
            assert(tag@ =~= ObjectKind::Tree.tag());
            Some(ObjectKind::Tree)
        } else {
            None
        }
    }

    /// The type token of the kind.
    pub fn tag_bytes(&self) -> (tag: Vec<u8>)
        ensures
            tag@ == self.tag(),
    {
        let mut tag: Vec<u8> = Vec::new();
        match self {
            ObjectKind::Blob => {
                tag.push(98);
                tag.push(108);
                tag.push(111);
                tag.push(98);
            },
            ObjectKind::Tree => {
                tag.push(116);
                tag.push(114);
                tag.push(101);
                tag.push(101);
            },
        }
        assert(tag@ =~= self.tag());
        tag
    }
}

/// The header of an object of `kind` with a payload of `len` bytes, without
/// the NUL that ends it.
pub open spec fn header(kind: ObjectKind, len: nat) -> Seq<u8> {
    kind.tag() + seq![32u8] + decimal_digits(len)
}

/// The canonical form of an object.
pub open spec fn canonical_form(kind: ObjectKind, payload: Seq<u8>) -> Seq<u8> {
    header(kind, payload.len()) + seq![0u8] + payload
}

/// What `bytes` decode to, if they hold an object.
///
/// The header runs up to the first NUL, which must stand within the scan
/// limit; it is a type token, one space and a decimal length. The payload is
/// that many bytes right after the NUL. Bytes behind the payload are not
/// looked at.
pub open spec fn decoded(bytes: Seq<u8>) -> Option<(ObjectKind, Seq<u8>)> {
    let nul = find_byte(bytes, 0, 0);
    if nul >= bytes.len() || nul >= HEADER_SCAN_LIMIT {
        None
    } else {
        let head = bytes.take(nul);
        let space = find_byte(head, 32, 0);
        if space >= head.len() {
            None
        } else {
            let digits = head.skip(space + 1);
            match ObjectKind::of_tag(head.take(space)) {
                None => None,
                Some(kind) => if is_decimal(digits) && nul + 1 + decimal_value(digits)
                    <= bytes.len() {
                    Some((kind, bytes.subrange(nul + 1, nul + 1 + decimal_value(digits))))
                } else {
                    None
                },
            }
        }
    }
}

/// Decoding the canonical form of an object gives back its kind and payload.
pub proof fn lemma_decode_inverts_encode(kind: ObjectKind, payload: Seq<u8>)
    requires
        payload.len() <= u64::MAX,
    ensures
        decoded(canonical_form(kind, payload)) == Some((kind, payload)),
{
    let digits = decimal_digits(payload.len());
    let head = header(kind, payload.len());
    let bytes = canonical_form(kind, payload);
    lemma_digits_spell(payload.len());
    lemma_digits_of_u64(payload.len());
    assert(head.len() == 5 + digits.len());
    assert forall|j: int| 0 <= j < head.len() implies head[j] != 0 by {
        if j >= 5 {
            assert(head[j] == digits[j - 5]);
        }
    }
    lemma_find_byte_is(bytes, 0, 0, head.len() as int);
    assert(bytes.take(head.len() as int) =~= head);
    lemma_find_byte_is(head, 32, 0, 4);
    assert(head.take(4) =~= kind.tag());
    assert(ObjectKind::Blob.tag()[0] != ObjectKind::Tree.tag()[0]);
    assert(head.skip(5) =~= digits);
    let start = head.len() as int + 1;
    assert(bytes.subrange(start, start + payload.len()) =~= payload);
}

/// Bytes without a NUL hold no object.
pub proof fn lemma_no_nul_is_corrupt(bytes: Seq<u8>)
    requires
        forall|i: int| 0 <= i < bytes.len() ==> bytes[i] != 0,
    ensures
        decoded(bytes) is None,
{
    lemma_find_byte(bytes, 0, 0);
}

/// Objects that differ in kind or payload differ in canonical form, so
/// that only the hash can make two of them one.
pub proof fn lemma_canonical_form_injective(
    kind: ObjectKind,
    payload: Seq<u8>,
    other_kind: ObjectKind,
    other_payload: Seq<u8>,
)
    requires
        payload.len() <= u64::MAX,
        other_payload.len() <= u64::MAX,
        canonical_form(kind, payload) == canonical_form(other_kind, other_payload),
    ensures
        kind == other_kind,
        payload == other_payload,
{
    lemma_decode_inverts_encode(kind, payload);
    lemma_decode_inverts_encode(other_kind, other_payload);
}

/// Writes the canonical form of an object.
pub fn encode_object(kind: ObjectKind, payload: &[u8]) -> (out: Vec<u8>)
    ensures
        out@ == canonical_form(kind, payload@),
{
    let mut out = kind.tag_bytes();
    out.push(32);
    let digits = format_decimal(payload.len());
    extend_bytes(&mut out, digits.as_slice());
    out.push(0);
    extend_bytes(&mut out, payload);
    out
}

/// Writes the canonical form of an object whose kind is given by name.
/// Fails with `EncodingError` on any name but `blob` and `tree`.
pub fn encode(kind: &str, payload: &[u8]) -> (out: Result<Vec<u8>, StoreError>)
    ensures
        match ObjectKind::named(kind@) {
            Some(k) => out matches Ok(bytes) && bytes@ == canonical_form(k, payload@),
            None => out matches Err(e) && e == StoreError::EncodingError,
        },
{
    match ObjectKind::from_name(kind) {
        Some(k) => Ok(encode_object(k, payload)),
        None => Err(StoreError::EncodingError),
    }
}

/// Reads an object from its canonical form: its kind and a copy of its
/// payload. Fails with `CorruptObject` where `bytes` do not start with a
/// header, or hold fewer bytes behind it than it announces.
pub fn decode(bytes: &[u8]) -> (out: Result<(ObjectKind, Vec<u8>), StoreError>)
    ensures
        match decoded(bytes@) {
            Some(object) => out matches Ok(got) && got.0 == object.0 && got.1@ == object.1,
            None => out matches Err(e) && e == StoreError::CorruptObject,
        },
{
    let window = if bytes.len() < HEADER_SCAN_LIMIT {
        bytes.len()
    } else {
        HEADER_SCAN_LIMIT
    };
    let nul = position_of(bytes, 0, 0, window);
    if nul >= window {
        return Err(StoreError::CorruptObject);
    }
    let head = slice_subrange(bytes, 0, nul);
    assert(head@ =~= bytes@.take(nul as int));
    let space = position_of(head, 32, 0, head.len());
    if space >= head.len() {
        return Err(StoreError::CorruptObject);
    }
    let tag = slice_subrange(head, 0, space);
    assert(tag@ =~= head@.take(space as int));
    let digits = slice_subrange(head, space + 1, head.len());
    assert(digits@ =~= head@.skip(space + 1));
    let kind = match ObjectKind::from_tag(tag) {
        Some(kind) => kind,
        None => {
            return Err(StoreError::CorruptObject);
        },
    };
    let len = match parse_decimal(digits) {
        Some(len) => len,
        None => {
            return Err(StoreError::CorruptObject);
        },
    };
    let start = nul + 1;
    if len > bytes.len() - start {
        return Err(StoreError::CorruptObject);
    }
    Ok((kind, copy_range(bytes, start, start + len)))
}

} // verus!
