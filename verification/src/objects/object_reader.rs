//! The read path of the store: from the bytes kept under an address to the
//! object.

use crate::error::DecodeError;
use crate::error::StoreError;
use crate::objects::blob::Blob;
use crate::objects::blob;
use crate::objects::commit::Commit;
use crate::objects::commit;
use crate::objects::object_base::GitObject;
use crate::objects::object_base::canonical;
use crate::objects::object_base::decimal;
use crate::objects::object_base::header_text;
use crate::objects::object_base::lemma_decimal;
use crate::objects::object_kind::GitObjectKind;
use crate::objects::object_kind::GitObjectKindView;
use crate::objects::object_manager::OBJECT_CONTENT_SEPARATOR;
use crate::objects::text::find_byte;
use crate::objects::text::is_word;
use crate::objects::text::lemma_char_code;
use crate::objects::text::lemma_encode_scalar_bytes;
use crate::objects::text::lemma_encode_utf8_ascii_absent;
use crate::objects::text::lemma_encode_utf8_concat;
use crate::objects::text::lemma_position_is;
use crate::objects::text::lemma_tokens_word_then;
use crate::objects::text::position;
use crate::objects::text::same_text;
use crate::objects::text::split_whitespace;
use crate::objects::text::tokens;
use crate::objects::text::utf8_text;
use crate::objects::tree::Tree;
use crate::objects::tree;
use crate::objects::utils::MAX_DIGEST_INPUT;
use crate::objects::utils::address_of;
use crate::objects::utils::compute_sha1_from_bytes;
use crate::objects::utils::is_address;
use crate::objects::utils::is_valid_address;
use flate2::read::ZlibDecoder;
use std::io::Read;
use vstd::prelude::*;
use vstd::slice::slice_subrange;
use vstd::string::*;
use vstd::utf8::*;

verus! {

/// What a zlib stream decompresses to; nothing for bytes that are no complete
/// zlib stream.
pub uninterp spec fn zlib_inflate(data: Seq<u8>) -> Option<Seq<u8>>;

/// The bytes, if there are any.
pub open spec fn bytes_of(data: Option<Vec<u8>>) -> Option<Seq<u8>> {
    match data {
        Some(bytes) => Some(bytes@),
        None => None,
    }
}

/// `ZlibDecoder::new` of `flate2::read` on the slice, read to its end: the
/// decompressed bytes, or nothing where the decoder reports an error.
#[verifier::external_body]
fn inflate(data: &[u8]) -> (out: Option<Vec<u8>>)
    ensures
        bytes_of(out) == zlib_inflate(data@),
{
    let mut out = Vec::new();
    match ZlibDecoder::new(data).read_to_end(&mut out) {
        Ok(_) => Some(out),
        Err(_) => None,
    }
}

/// The bytes of the file, if there is one.
pub open spec fn file_of(stored: Option<&[u8]>) -> Option<Seq<u8>> {
    match stored {
        Some(file) => Some(file@),
        None => None,
    }
}

/// The header and the payload of an encoding: the text before the first NUL,
/// and the bytes after it.
pub open spec fn split_header(data: Seq<u8>) -> Result<(Seq<char>, Seq<u8>), DecodeError> {
    match position(data, 0) {
        None => Err(DecodeError::MissingHeader),
        Some(end) => if valid_utf8(data.take(end)) {
            Ok((decode_utf8(data.take(end)), data.skip(end + 1)))
        } else {
            Err(DecodeError::InvalidEncoding)
        },
    }
}

/// The kind tag of a header: its first token.
pub open spec fn object_type(header: Seq<char>) -> Result<Seq<char>, DecodeError> {
    if tokens(header).len() == 0 {
        Err(DecodeError::MissingHeader)
    } else {
        Ok(tokens(header)[0])
    }
}

/// What the payload `content` of the kind `kind` decodes to.
pub open spec fn decode_payload(kind: Seq<char>, hash: Seq<char>, content: Seq<u8>) -> Result<
    GitObjectKindView,
    DecodeError,
> {
    if kind == blob::HEADER_PREFIX@ {
        match Blob::decoded(hash, content) {
            Ok(blob) => Ok(GitObjectKindView::Blob(blob)),
            Err(e) => Err(e),
        }
    } else if kind == tree::HEADER_PREFIX@ {
        match Tree::decoded(hash, content) {
            Ok(tree) => Ok(GitObjectKindView::Tree(tree)),
            Err(e) => Err(e),
        }
    } else if kind == commit::HEADER_PREFIX@ {
        match Commit::decoded(hash, content) {
            Ok(commit) => Ok(GitObjectKindView::Commit(commit)),
            Err(e) => Err(e),
        }
    } else {
        Err(DecodeError::UnknownKind)
    }
}

/// What the encoding `data` decodes to: the header names the kind, and the
/// payload is decoded as that kind.
pub open spec fn decode_data(hash: Seq<char>, data: Seq<u8>) -> Result<
    GitObjectKindView,
    DecodeError,
> {
    match split_header(data) {
        Err(e) => Err(e),
        Ok((header, content)) => match object_type(header) {
            Err(e) => Err(e),
            Ok(kind) => decode_payload(kind, hash, content),
        },
    }
}

/// What the encoding `data`, kept under `hash`, holds: what it decodes to, if
/// `hash` is its address.
pub open spec fn checked_data(hash: Seq<char>, data: Seq<u8>) -> Result<
    GitObjectKindView,
    StoreError,
> {
    match decode_data(hash, data) {
        Err(e) => Err(StoreError::Corrupt(e)),
        Ok(object) => if data.len() > MAX_DIGEST_INPUT {
            Err(StoreError::TooLarge)
        } else if address_of(data) != hash {
            Err(StoreError::Corrupt(DecodeError::AddressMismatch))
        } else {
            Ok(object)
        },
    }
}

/// What the store holds under `hash`, where `stored` is the file at the place
/// of `hash`, if there is one.
pub open spec fn load(hash: Seq<char>, stored: Option<Seq<u8>>) -> Result<
    GitObjectKindView,
    StoreError,
> {
    if !is_address(hash) {
        Err(StoreError::InvalidAddress)
    } else {
        match stored {
            None => Err(StoreError::NotFound),
            Some(file) => match zlib_inflate(file) {
                None => Err(StoreError::Corrupt(DecodeError::Compression)),
                Some(data) => checked_data(hash, data),
            },
        }
    }
}

/// What holds of every object that was decoded: it can be encoded again, and
/// no entry of a snapshot holds its child.
pub open spec fn loaded(object: GitObjectKind) -> bool {
    &&& object.encodable()
    &&& object matches GitObjectKind::Tree(tree) ==> tree.detached()
}

/// The encoding of an object is taken apart as it was put together: the
/// header names the kind `tag`, and what follows the header is the payload.
pub proof fn lemma_decode_canonical(tag: Seq<char>, hash: Seq<char>, payload: Seq<u8>)
    requires
        is_word(tag),
        forall|i: int| 0 <= i < tag.len() ==> #[trigger] tag[i] != '\0',
    ensures
        position(canonical(tag, payload), 0u8) == Some(
            encode_utf8(tag + seq![' '] + decimal(payload.len())).len() as int,
        ),
        canonical(tag, payload).skip(
            encode_utf8(tag + seq![' '] + decimal(payload.len())).len() as int + 1,
        ) == payload,
        split_header(canonical(tag, payload)) == Ok::<(Seq<char>, Seq<u8>), DecodeError>(
            (tag + seq![' '] + decimal(payload.len()), payload),
        ),
        object_type(tag + seq![' '] + decimal(payload.len())) == Ok::<Seq<char>, DecodeError>(tag),
        decode_data(hash, canonical(tag, payload)) == decode_payload(tag, hash, payload),
{
    let length = payload.len();
    let text = tag + seq![' '] + decimal(length);
    let header = header_text(tag, length);
    let prefix = encode_utf8(text);
    let data = canonical(tag, payload);
    lemma_decimal(length);
    lemma_encode_utf8_concat(text, seq!['\0']);
    lemma_encode_scalar_bytes('\0');
    assert(encode_utf8(seq!['\0']) == seq![0u8]) by {
        assert(encode_utf8(seq!['\0']) =~= encode_scalar('\0' as u32) + encode_utf8(
            seq!['\0'].drop_first(),
        ));
    }
    assert forall|j: int| 0 <= j < text.len() implies (#[trigger] text[j]) as u32 != 0u8 as u32 by {
        if j < tag.len() {
            assert(text[j] == tag[j]);
        } else if j == tag.len() {
            assert(text[j] == ' ');
        } else {
            assert(text[j] == decimal(length)[j - tag.len() - 1]);
        }
        lemma_char_code(text[j], '\0');
    }
    lemma_encode_utf8_ascii_absent(text, 0);
    assert forall|j: int| 0 <= j < prefix.len() implies data[j] != 0 by {
        assert(data[j] == prefix[j]);
    }
    lemma_position_is(data, 0, prefix.len() as int);
    assert(data.take(prefix.len() as int) == prefix);
    assert(data.skip(prefix.len() as int + 1) == payload);
    encode_utf8_valid_utf8(text);
    encode_utf8_decode_utf8(text);
    lemma_tokens_word_then(tag, ' ', decimal(length));
}

/// The reader of the store.
pub struct GitObjectReader;

impl GitObjectReader {
    /// Reads the object of the address `hash` from `stored`, the file at the
    /// place of `hash`, if there is one. Fails with `InvalidAddress` where
    /// `hash` is no address, else with `NotFound` where there is no file,
    /// else with `Corrupt` where the file does not decompress or decode or
    /// `hash` is not the address of what it holds.
    pub fn read_object(&self, hash: &str, stored: Option<&[u8]>) -> (object: Result<
        GitObjectKind,
        StoreError,
    >)
        ensures
            match load(hash@, file_of(stored)) {
                Ok(v) => object.is_ok() && object.unwrap()@ == v && loaded(object.unwrap()),
                Err(e) => object == Err::<GitObjectKind, StoreError>(e),
            },
            !is_address(hash@) ==> object == Err::<GitObjectKind, StoreError>(
                StoreError::InvalidAddress,
            ),
            is_address(hash@) && stored.is_none() ==> object == Err::<GitObjectKind, StoreError>(
                StoreError::NotFound,
            ),
    {
        if !is_valid_address(hash) {
            return Err(StoreError::InvalidAddress);
        }
        let file = match stored {
            Some(file) => file,
            None => { return Err(StoreError::NotFound); },
        };
        match inflate(file) {
            Some(object_data) => self.check_object(hash, object_data.as_slice()),
            None => Err(StoreError::Corrupt(DecodeError::Compression)),
        }
    }

    /// The object that the encoding `object_data` holds, if `hash` is its address.
    pub fn check_object(&self, hash: &str, object_data: &[u8]) -> (object: Result<
        GitObjectKind,
        StoreError,
    >)
        ensures
            match checked_data(hash@, object_data@) {
                Ok(v) => object.is_ok() && object.unwrap()@ == v && loaded(object.unwrap()),
                Err(e) => object == Err::<GitObjectKind, StoreError>(e),
            },
    {
        let object = match self.decode_object(hash, object_data) {
            Ok(object) => object,
            Err(e) => { return Err(StoreError::Corrupt(e)); },
        };
        if object_data.len() as u64 > MAX_DIGEST_INPUT {
            return Err(StoreError::TooLarge);
        }
        let address = compute_sha1_from_bytes(object_data);
        if !same_text(address.as_str(), hash) {
            return Err(StoreError::Corrupt(DecodeError::AddressMismatch));
        }
        Ok(object)
    }

    /// The object that the encoding `object_data` holds, for an object asked
    /// for under `hash`.
    pub fn decode_object(&self, hash: &str, object_data: &[u8]) -> (object: Result<
        GitObjectKind,
        DecodeError,
    >)
        ensures
            match decode_data(hash@, object_data@) {
                Ok(v) => object.is_ok() && object.unwrap()@ == v && loaded(object.unwrap()),
                Err(e) => object == Err::<GitObjectKind, DecodeError>(e),
            },
    {
        let (header, content) = match self.split_header_and_content(object_data) {
            Ok(parts) => parts,
            Err(e) => { return Err(e); },
        };
        let object_kind = match self.identify_object_type(header) {
            Ok(kind) => kind,
            Err(e) => { return Err(e); },
        };
        if same_text(object_kind.as_str(), blob::HEADER_PREFIX) {
            match Blob::from_object_file(hash, content) {
                Ok(blob) => Ok(GitObjectKind::Blob(blob)),
                Err(e) => Err(e),
            }
        } else if same_text(object_kind.as_str(), tree::HEADER_PREFIX) {
            match Tree::from_object_file(hash, content) {
                Ok(tree) => Ok(GitObjectKind::Tree(tree)),
                Err(e) => Err(e),
            }
        } else if same_text(object_kind.as_str(), commit::HEADER_PREFIX) {
            match Commit::from_object_file(hash, content) {
                Ok(commit) => Ok(GitObjectKind::Commit(commit)),
                Err(e) => Err(e),
            }
        } else {
            Err(DecodeError::UnknownKind)
        }
    }

    /// The header and the payload of an encoding. Fails with `MissingHeader`
    /// where the encoding holds no NUL, and with `InvalidEncoding` where what
    /// stands before the first NUL is not UTF-8.
    pub fn split_header_and_content<'a>(&self, object_data: &'a [u8]) -> (parts: Result<
        (&'a str, &'a [u8]),
        DecodeError,
    >)
        ensures
            match split_header(object_data@) {
                Ok((header, content)) => parts.is_ok() && parts.unwrap().0@ == header
                    && parts.unwrap().1@ == content,
                Err(e) => parts == Err::<(&'a str, &'a [u8]), DecodeError>(e),
            },
    {
        assert(object_data@.skip(0) == object_data@);
        let null_byte_pos = match find_byte(object_data, 0, OBJECT_CONTENT_SEPARATOR) {
            Some(pos) => pos,
            None => { return Err(DecodeError::MissingHeader); },
        };
        let header_bytes = slice_subrange(object_data, 0, null_byte_pos);
        assert(header_bytes@ == object_data@.take(null_byte_pos as int));
        let header = match utf8_text(header_bytes) {
            Some(header) => header,
            None => { return Err(DecodeError::InvalidEncoding); },
        };
        let length = object_data.len();
        let content = slice_subrange(object_data, null_byte_pos + 1, length);
        assert(content@ == object_data@.skip(null_byte_pos + 1));
        Ok((header, content))
    }

    /// The kind tag of a header: its first token. Fails with `MissingHeader`
    /// where the header holds no token.
    pub fn identify_object_type(&self, header: &str) -> (kind: Result<String, DecodeError>)
        ensures
            match object_type(header@) {
                Ok(tag) => kind.is_ok() && kind.unwrap()@ == tag,
                Err(e) => kind == Err::<String, DecodeError>(e),
            },
    {
        let parts = split_whitespace(header);
        if parts.len() == 0 {
            return Err(DecodeError::MissingHeader);
        }
        Ok(parts[0].clone())
    }
}

} // verus!
