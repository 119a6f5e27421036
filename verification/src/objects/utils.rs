//! Addresses: SHA-1 digests written in hexadecimal, and where the store keeps
//! the object of an address.

use crate::error::StoreError;
use crate::objects::text::push_char;
use sha1::{Digest, Sha1};
use vstd::prelude::*;
use vstd::string::*;
use vstd::utf8::*;

verus! {

/// The number of characters of an address.
pub const OBJECT_HASH_SIZE: usize = 40;

/// The longest input, in bytes, whose bit length SHA-1 can still count.
pub const MAX_DIGEST_INPUT: u64 = 0x1fff_ffff_ffff_ffff;

/// The SHA-1 digest of `data`.
pub uninterp spec fn sha1_digest(data: Seq<u8>) -> Seq<u8>;

/// The digit that stands for `n` in lowercase hexadecimal.
pub open spec fn hex_digit(n: int) -> char
    recommends
        0 <= n < 16,
{
    seq!['0', '1', '2', '3', '4', '5', '6', '7', '8', '9', 'a', 'b', 'c', 'd', 'e', 'f'][n]
}

/// What a hexadecimal digit of either case stands for; -1 for any other character.
pub open spec fn hex_value(c: char) -> int {
    if '0' <= c <= '9' {
        c as int - 48
    } else if 'a' <= c <= 'f' {
        c as int - 87
    } else if 'A' <= c <= 'F' {
        c as int - 55
    } else {
        -1
    }
}

/// `c` is one of `0` to `9`, `a` to `f`.
pub open spec fn is_lower_hex_digit(c: char) -> bool {
    '0' <= c <= '9' || 'a' <= c <= 'f'
}

/// Two lowercase hexadecimal digits for each byte, the high half first.
pub open spec fn hex_encode(data: Seq<u8>) -> Seq<char> {
    Seq::new(
        2 * data.len(),
        |i: int|
            hex_digit(
                if i % 2 == 0 {
                    data[i / 2] as int / 16
                } else {
                    data[i / 2] as int % 16
                },
            ),
    )
}

/// `text` is an even number of hexadecimal digits of either case.
pub open spec fn is_hex(text: Seq<char>) -> bool {
    &&& text.len() % 2 == 0
    &&& forall|i: int| 0 <= i < text.len() ==> hex_value(#[trigger] text[i]) >= 0
}

/// The bytes that the digits of `text` stand for, two digits to the byte.
pub open spec fn hex_decode(text: Seq<char>) -> Seq<u8>
    recommends
        is_hex(text),
{
    Seq::new(
        text.len() / 2,
        |i: int| (hex_value(text[2 * i]) * 16 + hex_value(text[2 * i + 1])) as u8,
    )
}

/// An address is 40 lowercase hexadecimal digits.
pub open spec fn is_address(text: Seq<char>) -> bool {
    &&& text.len() == 40
    &&& forall|i: int| 0 <= i < text.len() ==> is_lower_hex_digit(#[trigger] text[i])
}

/// The address of an object whose canonical encoding is `data`.
pub open spec fn address_of(data: Seq<u8>) -> Seq<char> {
    hex_encode(sha1_digest(data))
}

/// The place of an object below the root of the store: a directory named by
/// the first two digits of the address, and in it a file named by the other 38.
#[derive(Debug, PartialEq, Eq)]
pub struct ObjectPath {
    pub dir: String,
    pub file: String,
}

/// `Sha1::new`, `update` and `finalize` of the `sha1` crate: the digest of
/// `data`, which has 20 bytes. The crate counts the bits of its input in a
/// `u64`; inputs too long for that are left out.
#[verifier::external_body]
fn sha1_bytes(data: &[u8]) -> (digest: Vec<u8>)
    requires
        data@.len() <= MAX_DIGEST_INPUT,
    ensures
        digest@ == sha1_digest(data@),
        digest@.len() == 20,
{
    let mut hasher = Sha1::new();
    hasher.update(data);
    hasher.finalize().to_vec()
}

/// The digit that stands for `n` in lowercase hexadecimal.
fn hex_digit_of(n: u8) -> (c: char)
    requires
        n < 16,
    ensures
        c == hex_digit(n as int),
{
    if n < 8 {
        if n < 4 {
            if n == 0 {
                '0'
            } else if n == 1 {
                '1'
            } else if n == 2 {
                '2'
            } else {
                '3'
            }
        } else if n == 4 {
            '4'
        } else if n == 5 {
            '5'
        } else if n == 6 {
            '6'
        } else {
            '7'
        }
    } else if n < 12 {
        if n == 8 {
            '8'
        } else if n == 9 {
            '9'
        } else if n == 10 {
            'a'
        } else {
            'b'
        }
    } else if n == 12 {
        'c'
    } else if n == 13 {
        'd'
    } else if n == 14 {
        'e'
    } else {
        'f'
    }
}

/// Each byte as two lowercase hexadecimal digits.
pub fn hex_encode_bytes(data: &[u8]) -> (text: String)
    ensures
        text@ == hex_encode(data@),
{
    let mut text = String::new();
    let mut i: usize = 0;
    while i < data.len()
        invariant
            i <= data@.len(),
            text@ == hex_encode(data@.take(i as int)),
        decreases data@.len() - i,
    {
        let byte = data[i];
        push_char(&mut text, hex_digit_of(byte / 16));
        push_char(&mut text, hex_digit_of(byte % 16));
        proof {
            let next = hex_encode(data@.take(i + 1));
            assert(text@.len() == next.len());
            assert forall|k: int| 0 <= k < next.len() implies text@[k] == next[k] by {
                if k < 2 * i {
                    assert(data@.take(i as int)[k / 2] == data@.take(i + 1)[k / 2]);
                } else {
                    assert(data@.take(i + 1)[k / 2] == byte);
                }
            }
        }
        i += 1;
    }
    text
}

/// What the byte of a hexadecimal digit of either case stands for; -1 for
/// any other byte.
pub open spec fn hex_value_of_byte(byte: u8) -> int {
    if 48 <= byte <= 57 {
        byte - 48
    } else if 97 <= byte <= 102 {
        byte - 87
    } else if 65 <= byte <= 70 {
        byte - 55
    } else {
        -1
    }
}

/// A character below 128 stands for what its byte stands for.
pub proof fn lemma_hex_value_of_byte(c: char)
    requires
        (c as u32) < 128,
    ensures
        hex_value(c) == hex_value_of_byte(c as u8),
{
}

/// What a hexadecimal digit of either case stands for.
fn hex_value_byte(byte: u8) -> (value: Option<u8>)
    ensures
        match value {
            Some(v) => v < 16 && v == hex_value_of_byte(byte),
            None => hex_value_of_byte(byte) == -1,
        },
{
    if 48 <= byte && byte <= 57 {
        Some(byte - 48)
    } else if 97 <= byte && byte <= 102 {
        Some(byte - 87)
    } else if 65 <= byte && byte <= 70 {
        Some(byte - 55)
    } else {
        None
    }
}

/// The bytes of an even number of hexadecimal digits of either case, and
/// nothing for any other text.
pub fn hex_decode_text(text: &str) -> (bytes: Option<Vec<u8>>)
    ensures
        is_hex(text@) ==> bytes.is_some() && bytes.unwrap()@ == hex_decode(text@),
        !is_hex(text@) ==> bytes.is_none(),
{
    if !text.is_ascii() {
        proof {
            let i = choose|i: int| 0 <= i < text@.len() && !('\0' <= #[trigger] text@[i] <= '\u{7f}');
            assert(hex_value(text@[i]) == -1);
        }
        return None;
    }
    let digits = text.as_bytes();
    proof {
        is_ascii_spec_bytes(text);
        assert forall|k: int| 0 <= k < text@.len() implies hex_value(#[trigger] text@[k])
            == hex_value_of_byte(digits@[k]) by {
            lemma_ascii_char(text@[k]);
            lemma_hex_value_of_byte(text@[k]);
        }
    }
    if digits.len() % 2 != 0 {
        return None;
    }
    let count = digits.len() / 2;
    let mut bytes: Vec<u8> = Vec::new();
    let mut i: usize = 0;
    while i < count
        invariant
            i <= count,
            count * 2 == digits@.len() <= usize::MAX,
            digits@.len() == text@.len(),
            forall|k: int|
                0 <= k < text@.len() ==> hex_value(#[trigger] text@[k]) == hex_value_of_byte(
                    digits@[k],
                ),
            forall|k: int| 0 <= k < 2 * i ==> hex_value(#[trigger] text@[k]) >= 0,
            bytes@.len() == i,
            forall|k: int| 0 <= k < i ==> #[trigger] bytes@[k] == hex_decode(text@)[k],
        decreases count - i,
    {
        let high = hex_value_byte(digits[2 * i]);
        let low = hex_value_byte(digits[2 * i + 1]);
        match (high, low) {
            (Some(high), Some(low)) => {
                bytes.push(high * 16 + low);
            },
            _ => {
                assert(hex_value(text@[2 * i]) < 0 || hex_value(text@[2 * i + 1]) < 0);
                return None;
            },
        }
        i += 1;
    }
    Some(bytes)
}

/// A character of an ASCII text is below 128.
proof fn lemma_ascii_char(c: char)
    ensures
        '\0' <= c <= '\u{7f}' ==> (c as u32) < 128,
{
}

/// Hexadecimal text of 20 bytes is an address.
pub proof fn lemma_hex_encode_is_address(data: Seq<u8>)
    requires
        data.len() == 20,
    ensures
        is_address(hex_encode(data)),
{
    assert forall|i: int| 0 <= i < hex_encode(data).len() implies is_lower_hex_digit(
        #[trigger] hex_encode(data)[i],
    ) by {
        lemma_hex_digit((data[i / 2] as int) / 16);
        lemma_hex_digit((data[i / 2] as int) % 16);
    }
}

/// Every hexadecimal digit is a lowercase digit that stands for its number.
pub proof fn lemma_hex_digit(n: int)
    requires
        0 <= n < 16,
    ensures
        is_lower_hex_digit(hex_digit(n)),
        hex_value(hex_digit(n)) == n,
{
}

/// Encoding undoes decoding on lowercase digits.
pub proof fn lemma_hex_encode_decode(text: Seq<char>)
    requires
        text.len() % 2 == 0,
        forall|i: int| 0 <= i < text.len() ==> is_lower_hex_digit(#[trigger] text[i]),
    ensures
        is_hex(text),
        hex_encode(hex_decode(text)) == text,
{
    let data = hex_decode(text);
    assert forall|i: int| 0 <= i < text.len() implies hex_encode(data)[i] == text[i] by {
        let k = i / 2;
        let hi = text[2 * k];
        let lo = text[2 * k + 1];
        assert(is_lower_hex_digit(hi) && is_lower_hex_digit(lo));
        let v = hex_value(hi) * 16 + hex_value(lo);
        assert(0 <= v < 256);
        lemma_hex_digit_of_value(hi);
        lemma_hex_digit_of_value(lo);
    }
}

proof fn lemma_hex_digit_of_value(c: char)
    requires
        is_lower_hex_digit(c),
    ensures
        hex_digit(hex_value(c)) == c,
{
    let n = hex_value(c);
    assert(0 <= n < 16);
    lemma_hex_digit(n);
}

/// The address of `data`: its SHA-1 digest in lowercase hexadecimal.
pub fn compute_sha1_from_bytes(data: &[u8]) -> (hash: String)
    requires
        data@.len() <= MAX_DIGEST_INPUT,
    ensures
        hash@ == address_of(data@),
        is_address(hash@),
{
    let digest = sha1_bytes(data);
    proof {
        lemma_hex_encode_is_address(digest@);
    }
    hex_encode_bytes(digest.as_slice())
}

/// The address of the UTF-8 bytes of `data`.
pub fn compute_sha1(data: &str) -> (hash: String)
    requires
        encode_utf8(data@).len() <= MAX_DIGEST_INPUT,
    ensures
        hash@ == address_of(encode_utf8(data@)),
        is_address(hash@),
{
    compute_sha1_from_bytes(data.as_bytes())
}

/// Whether `hash` is an address.
pub fn is_valid_address(hash: &str) -> (valid: bool)
    ensures
        valid == is_address(hash@),
{
    if !hash.is_ascii() {
        return false;
    }
    let bytes = hash.as_bytes();
    proof {
        is_ascii_spec_bytes(hash);
    }
    if bytes.len() != OBJECT_HASH_SIZE {
        return false;
    }
    let mut i: usize = 0;
    while i < OBJECT_HASH_SIZE
        invariant
            i <= OBJECT_HASH_SIZE,
            bytes@.len() == OBJECT_HASH_SIZE,
            hash@.len() == OBJECT_HASH_SIZE,
            forall|k: int| 0 <= k < hash@.len() ==> bytes@[k] == (#[trigger] hash@[k]) as u8,
            is_ascii_chars(hash@),
            forall|k: int| 0 <= k < i ==> is_lower_hex_digit(#[trigger] hash@[k]),
        decreases OBJECT_HASH_SIZE - i,
    {
        let b = bytes[i];
        let digit = (b >= 48 && b <= 57) || (b >= 97 && b <= 102);
        assert(digit == is_lower_hex_digit(hash@[i as int]));
        if !digit {
            return false;
        }
        i += 1;
    }
    true
}

/// Where the store keeps the object of the address `hash`.
pub fn hash_to_object_path(hash: &str) -> (path: Result<ObjectPath, StoreError>)
    ensures
        !is_address(hash@) ==> path == Err::<ObjectPath, StoreError>(StoreError::InvalidAddress),
        is_address(hash@) ==> path.is_ok() && path.unwrap().dir@ == hash@.take(2)
            && path.unwrap().file@ == hash@.skip(2),
{
    if !is_valid_address(hash) {
        return Err(StoreError::InvalidAddress);
    }
    let dir = hash.substring_ascii(0, 2);
    let file = hash.substring_ascii(2, OBJECT_HASH_SIZE);
    Ok(ObjectPath { dir: dir.to_owned(), file: file.to_owned() })
}

} // verus!
