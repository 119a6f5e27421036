//! What every kind of object has: an address, a kind tag, a canonical
//! encoding, and a decoder for its payload.

use crate::error::DecodeError;
use crate::error::StoreError;
use crate::objects::utils::ObjectPath;
use crate::objects::utils::hash_to_object_path;
use crate::objects::utils::hex_digit;
use crate::objects::utils::is_address;
use vstd::prelude::*;
use vstd::string::*;
use vstd::utf8::*;

verus! {

/// The part that all kinds of object share.
#[derive(Debug, Clone, PartialEq, Eq)]
pub struct GitObjectBase {
    /// The address of the object.
    pub hash: String,
}

/// `n` in decimal, without leading zeros.
pub open spec fn decimal(n: nat) -> Seq<char>
    decreases n,
{
    if n < 10 {
        seq![hex_digit(n as int)]
    } else {
        decimal(n / 10).push(hex_digit((n % 10) as int))
    }
}

/// The header of an object: the kind tag, a space, the payload's length in
/// decimal, and a NUL.
pub open spec fn header_text(tag: Seq<char>, length: nat) -> Seq<char> {
    tag + seq![' '] + decimal(length) + seq!['\0']
}

/// The canonical encoding of an object: the header in UTF-8, then the payload.
/// Its SHA-1 digest is the object's address.
pub open spec fn canonical(tag: Seq<char>, payload: Seq<u8>) -> Seq<u8> {
    encode_utf8(header_text(tag, payload.len())) + payload
}

/// Decimal digits are digits: none is whitespace or NUL.
pub proof fn lemma_decimal(n: nat)
    ensures
        decimal(n).len() > 0,
        forall|i: int| 0 <= i < decimal(n).len() ==> '0' <= #[trigger] decimal(n)[i] <= '9',
    decreases n,
{
    if n >= 10 {
        lemma_decimal(n / 10);
    }
}

fn digit_text(d: usize) -> (text: &'static str)
    requires
        d < 10,
    ensures
        text@ == seq![hex_digit(d as int)],
{
    proof {
        reveal_strlit("0");
        reveal_strlit("1");
        reveal_strlit("2");
        reveal_strlit("3");
        reveal_strlit("4");
        reveal_strlit("5");
        reveal_strlit("6");
        reveal_strlit("7");
        reveal_strlit("8");
        reveal_strlit("9");
    }
    let text = if d == 0 {
        "0"
    } else if d == 1 {
        "1"
    } else if d == 2 {
        "2"
    } else if d == 3 {
        "3"
    } else if d == 4 {
        "4"
    } else if d == 5 {
        "5"
    } else if d == 6 {
        "6"
    } else if d == 7 {
        "7"
    } else if d == 8 {
        "8"
    } else {
        "9"
    };
    text
}

/// `n` in decimal.
pub fn decimal_text(n: usize) -> (text: String)
    ensures
        text@ == decimal(n as nat),
    decreases n,
{
    if n < 10 {
        String::from_str(digit_text(n))
    } else {
        let mut text = decimal_text(n / 10);
        text.append(digit_text(n % 10));
        text
    }
}

/// The header of an object of the kind `tag` with a payload of `length` bytes.
pub fn header_string(tag: &str, length: usize) -> (header: String)
    ensures
        header@ == header_text(tag@, length as nat),
{
    proof {
        reveal_strlit(" ");
        reveal_strlit("\0");
    }
    let mut header = String::from_str(tag);
    header.append(" ");
    header.append(decimal_text(length).as_str());
    header.append("\0");
    header
}

/// The canonical encoding of an object of the kind `tag` with the given payload.
pub fn encode_object(tag: &str, payload: &[u8]) -> (data: Vec<u8>)
    ensures
        data@ == canonical(tag@, payload@),
{
    let header = header_string(tag, payload.len());
    let mut data: Vec<u8> = Vec::new();
    data.extend_from_slice(header.as_str().as_bytes());
    data.extend_from_slice(payload);
    data
}

/// An object of the store. The view of an object is what the store keeps of it.
pub trait GitObject: View + Sized {
    /// The address that the object carries.
    spec fn address(&self) -> Seq<char>;

    /// The kind tag that starts the header.
    spec fn tag(&self) -> Seq<char>;

    /// Whether the fields can be encoded: every address that the payload holds
    /// in binary is an address.
    spec fn encodable(&self) -> bool;

    /// The payload: the encoding without the header.
    spec fn payload(&self) -> Seq<u8>;

    /// What the payload `content` decodes to, for an object asked for under `hash`.
    spec fn decoded(hash: Seq<char>, content: Seq<u8>) -> Result<Self::V, DecodeError>;

    fn get_hash(&self) -> (hash: &str)
        ensures
            hash@ == self.address(),
    ;

    fn get_header_prefix(&self) -> (prefix: &'static str)
        ensures
            prefix@ == self.tag(),
    ;

    fn get_header(&self) -> (header: String)
        requires
            self.encodable(),
        ensures
            header@ == header_text(self.tag(), self.payload().len()),
    {
        header_string(self.get_header_prefix(), self.compute_size())
    }

    /// Where the store keeps the object: `InvalidAddress` unless it carries an
    /// address.
    fn compute_file_path(&self) -> (path: Result<ObjectPath, StoreError>)
        ensures
            !is_address(self.address()) ==> path == Err::<ObjectPath, StoreError>(
                StoreError::InvalidAddress,
            ),
            is_address(self.address()) ==> path.is_ok() && path.unwrap().dir@
                == self.address().take(2) && path.unwrap().file@ == self.address().skip(2),
    {
        hash_to_object_path(self.get_hash())
    }

    /// The length of the payload in bytes.
    fn compute_size(&self) -> (size: usize)
        requires
            self.encodable(),
        ensures
            size == self.payload().len(),
    ;

    /// The canonical encoding: header and payload.
    fn compute_object_data(&self) -> (data: Vec<u8>)
        requires
            self.encodable(),
        ensures
            data@ == canonical(self.tag(), self.payload()),
    ;

    /// Decodes the payload `content` of an object that was asked for under `hash`.
    fn from_object_file(hash: &str, content: &[u8]) -> (object: Result<Self, DecodeError>)
        ensures
            match Self::decoded(hash@, content@) {
                Ok(v) => object.is_ok() && object.unwrap()@ == v,
                Err(e) => object == Err::<Self, DecodeError>(e),
            },
    ;
}

} // verus!
