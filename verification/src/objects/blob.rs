//! Content objects: the bytes of a file.

use crate::error::DecodeError;
use crate::error::StoreError;
use crate::objects::object_base::GitObject;
use crate::objects::object_base::GitObjectBase;
use crate::objects::object_base::canonical;
use crate::objects::object_base::encode_object;
use crate::objects::text::utf8_text;
use crate::objects::utils::MAX_DIGEST_INPUT;
use crate::objects::utils::address_of;
use crate::objects::utils::compute_sha1_from_bytes;
use crate::objects::utils::is_address;
use vstd::prelude::*;
use vstd::string::*;
use vstd::utf8::*;

verus! {

/// The kind tag of a content object.
pub const HEADER_PREFIX: &'static str = "blob";

/// A content object: text, kept as its UTF-8 bytes.
#[derive(Debug, Clone, PartialEq, Eq)]
pub struct Blob {
    pub base: GitObjectBase,
    pub content: String,
}

/// What the store keeps of a content object.
pub struct BlobView {
    pub hash: Seq<char>,
    pub content: Seq<char>,
}

impl View for Blob {
    type V = BlobView;

    open spec fn view(&self) -> BlobView {
        BlobView { hash: self.base.hash@, content: self.content@ }
    }
}

impl Blob {
    /// What `new` makes of `content`: `InvalidEncoding` where it is not
    /// UTF-8, else `TooLarge` where the encoding is longer than SHA-1 can
    /// digest, else the text under the address of its encoding.
    pub open spec fn built(content: Seq<u8>) -> Result<BlobView, StoreError> {
        if !valid_utf8(content) {
            Err(StoreError::Corrupt(DecodeError::InvalidEncoding))
        } else if canonical(HEADER_PREFIX@, content).len() > MAX_DIGEST_INPUT {
            Err(StoreError::TooLarge)
        } else {
            Ok(
                BlobView {
                    hash: address_of(canonical(HEADER_PREFIX@, content)),
                    content: decode_utf8(content),
                },
            )
        }
    }

    /// The content object that holds `content`, under the address of its
    /// encoding.
    pub fn new(content: Vec<u8>) -> (blob: Result<Blob, StoreError>)
        ensures
            match Blob::built(content@) {
                Ok(v) => blob.is_ok() && blob.unwrap()@ == v && is_address(v.hash),
                Err(e) => blob == Err::<Blob, StoreError>(e),
            },
    {
        let text = match utf8_text(content.as_slice()) {
            Some(text) => text.to_owned(),
            None => { return Err(StoreError::Corrupt(DecodeError::InvalidEncoding)); },
        };
        let data = encode_object(HEADER_PREFIX, content.as_slice());
        if data.len() as u64 > MAX_DIGEST_INPUT {
            return Err(StoreError::TooLarge);
        }
        let hash = compute_sha1_from_bytes(data.as_slice());
        Ok(Blob { base: GitObjectBase { hash }, content: text })
    }
}

impl GitObject for Blob {
    open spec fn address(&self) -> Seq<char> {
        self.base.hash@
    }

    open spec fn tag(&self) -> Seq<char> {
        HEADER_PREFIX@
    }

    open spec fn encodable(&self) -> bool {
        true
    }

    open spec fn payload(&self) -> Seq<u8> {
        encode_utf8(self.content@)
    }

    open spec fn decoded(hash: Seq<char>, content: Seq<u8>) -> Result<BlobView, DecodeError> {
        if valid_utf8(content) {
            Ok(BlobView { hash, content: decode_utf8(content) })
        } else {
            Err(DecodeError::InvalidEncoding)
        }
    }

    fn get_hash(&self) -> (hash: &str) {
        self.base.hash.as_str()
    }

    fn get_header_prefix(&self) -> (prefix: &'static str) {
        HEADER_PREFIX
    }

    fn compute_size(&self) -> (size: usize) {
        self.content.as_str().as_bytes().len()
    }

    fn compute_object_data(&self) -> (data: Vec<u8>) {
        encode_object(HEADER_PREFIX, self.content.as_str().as_bytes())
    }

    fn from_object_file(hash: &str, content: &[u8]) -> (object: Result<Blob, DecodeError>) {
        match utf8_text(content) {
            Some(text) => Ok(
                Blob { base: GitObjectBase { hash: hash.to_owned() }, content: text.to_owned() },
            ),
            None => Err(DecodeError::InvalidEncoding),
        }
    }
}

/// Decoding undoes encoding: the payload of a content object decodes to its
/// text, under the address it is asked for under.
pub proof fn lemma_blob_round_trip(content: Seq<char>, hash: Seq<char>)
    ensures
        Blob::decoded(hash, encode_utf8(content)) == Ok::<BlobView, DecodeError>(
            BlobView { hash, content },
        ),
{
    encode_utf8_valid_utf8(content);
    encode_utf8_decode_utf8(content);
}

} // verus!
