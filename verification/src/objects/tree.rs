//! Snapshot objects: the listing of a directory, sorted by name.

use crate::error::DecodeError;
use crate::error::StoreError;
use crate::objects::object_base::GitObject;
use crate::objects::object_base::GitObjectBase;
use crate::objects::object_base::canonical;
use crate::objects::object_base::encode_object;
use crate::objects::object_kind::EntryModel;
use crate::objects::object_kind::GitObjectKind;
use crate::objects::object_kind::TreeModel;
use crate::objects::object_kind::entries_model;
use crate::objects::object_kind::shallow;
use crate::objects::object_kind::tree_model;
use crate::objects::object_manager::OBJECT_CONTENT_SEPARATOR;
use crate::objects::order::lemma_sort_keeps;
use crate::objects::order::lemma_sort_permutes;
use crate::objects::order::lemma_sort_sorted;
use crate::objects::order::sort_by_name;
use crate::objects::order::sort_entries;
use crate::objects::order::sorted_by_name;
use crate::objects::text::contains_char;
use crate::objects::text::find_byte;
use crate::objects::text::lemma_position;
use crate::objects::text::lemma_position_after_text;
use crate::objects::text::position;
use crate::objects::text::utf8_text;
use crate::objects::utils::MAX_DIGEST_INPUT;
use crate::objects::utils::address_of;
use crate::objects::utils::compute_sha1_from_bytes;
use crate::objects::utils::hex_decode;
use crate::objects::utils::hex_decode_text;
use crate::objects::utils::hex_encode;
use crate::objects::utils::hex_encode_bytes;
use crate::objects::utils::is_address;
use crate::objects::utils::is_valid_address;
use crate::objects::utils::lemma_hex_encode_decode;
use crate::objects::utils::lemma_hex_encode_is_address;
use vstd::prelude::*;
use vstd::slice::slice_subrange;
use vstd::string::*;
use vstd::utf8::*;

verus! {

/// The kind tag of a snapshot.
pub const HEADER_PREFIX: &'static str = "tree";

/// The number of bytes of an address in binary.
pub const RAW_HASH_SIZE: usize = 20;

/// A snapshot: the entries of a directory.
#[derive(Debug, PartialEq, Eq)]
pub struct Tree {
    pub base: GitObjectBase,
    pub entries: Vec<TreeEntry>,
}

/// One entry of a snapshot: a mode token, a name, and the address of the
/// child. `object` may hold the child itself while a snapshot is built; the
/// store keeps nothing of it.
#[derive(Debug, PartialEq, Eq)]
pub struct TreeEntry {
    pub mode: String,
    pub name: String,
    pub hash: String,
    pub object: Option<GitObjectKind>,
}

/// What the store keeps of an entry.
pub struct TreeEntryView {
    pub mode: Seq<char>,
    pub name: Seq<char>,
    pub hash: Seq<char>,
}

/// What the store keeps of a snapshot.
pub struct TreeView {
    pub hash: Seq<char>,
    pub entries: Seq<TreeEntryView>,
}

impl View for TreeEntry {
    type V = TreeEntryView;

    open spec fn view(&self) -> TreeEntryView {
        TreeEntryView { mode: self.mode@, name: self.name@, hash: self.hash@ }
    }
}

impl View for Tree {
    type V = TreeView;

    open spec fn view(&self) -> TreeView {
        TreeView { hash: self.base.hash@, entries: views(self.entries@) }
    }
}

/// What the store keeps of each entry.
pub open spec fn views(entries: Seq<TreeEntry>) -> Seq<TreeEntryView> {
    entries.map_values(|e: TreeEntry| e@)
}

/// The child address of every entry is an address.
pub open spec fn addresses_valid(entries: Seq<TreeEntryView>) -> bool {
    forall|i: int| 0 <= i < entries.len() ==> is_address((#[trigger] entries[i]).hash)
}

/// A mode holds no space.
pub open spec fn valid_mode(mode: Seq<char>) -> bool {
    !mode.contains(' ')
}

/// A name holds neither `/` nor NUL.
pub open spec fn valid_name(name: Seq<char>) -> bool {
    !name.contains('/') && !name.contains('\0')
}

/// The mode and the name of every entry are a mode and a name.
pub open spec fn names_valid(entries: Seq<TreeEntryView>) -> bool {
    forall|i: int|
        0 <= i < entries.len() ==> valid_mode((#[trigger] entries[i]).mode) && valid_name(
            entries[i].name,
        )
}

/// An entry that decoding gives back as it is: no space in the mode, no NUL
/// in the name, and an address for the child.
pub open spec fn plain_entry(entry: TreeEntryView) -> bool {
    &&& forall|i: int| 0 <= i < entry.mode.len() ==> #[trigger] entry.mode[i] != ' '
    &&& forall|i: int| 0 <= i < entry.name.len() ==> #[trigger] entry.name[i] != '\0'
    &&& is_address(entry.hash)
}

/// Every entry is one that decoding gives back as it is.
pub open spec fn all_plain(entries: Seq<TreeEntryView>) -> bool {
    forall|i: int| 0 <= i < entries.len() ==> plain_entry(#[trigger] entries[i])
}

/// The encoding of one entry: the mode, a space, the name, a NUL, and the
/// child address in binary.
pub open spec fn entry_bytes(entry: TreeEntryView) -> Seq<u8> {
    encode_utf8(entry.mode) + seq![0x20u8] + encode_utf8(entry.name) + seq![0u8] + hex_decode(
        entry.hash,
    )
}

/// The payload of a snapshot: the encodings of its entries, in their order.
pub open spec fn entries_bytes(entries: Seq<TreeEntryView>) -> Seq<u8>
    decreases entries.len(),
{
    if entries.len() == 0 {
        Seq::<u8>::empty()
    } else {
        entry_bytes(entries[0]) + entries_bytes(entries.drop_first())
    }
}

/// The payload of two listings in a row is the two payloads in a row.
pub proof fn lemma_entries_bytes_concat(a: Seq<TreeEntryView>, b: Seq<TreeEntryView>)
    ensures
        entries_bytes(a + b) == entries_bytes(a) + entries_bytes(b),
    decreases a.len(),
{
    if a.len() == 0 {
        assert(a + b == b);
    } else {
        lemma_entries_bytes_concat(a.drop_first(), b);
        assert((a + b).drop_first() == a.drop_first() + b);
    }
}

/// What the content of a snapshot holds at its start: one entry, and the
/// number of bytes it takes. The mode ends at the first space and the name at
/// the first NUL after it; both are UTF-8; 20 bytes of address follow.
pub open spec fn parse_entry(content: Seq<u8>) -> Result<(TreeEntryView, int), DecodeError> {
    match position(content, 0x20) {
        None => Err(DecodeError::Truncated),
        Some(mode_end) => {
            let after_mode = content.skip(mode_end + 1);
            if !valid_utf8(content.take(mode_end)) {
                Err(DecodeError::InvalidEncoding)
            } else {
                match position(after_mode, 0) {
                    None => Err(DecodeError::Truncated),
                    Some(name_end) => {
                        let after_name = after_mode.skip(name_end + 1);
                        if !valid_utf8(after_mode.take(name_end)) {
                            Err(DecodeError::InvalidEncoding)
                        } else if after_name.len() < 20 {
                            Err(DecodeError::Truncated)
                        } else {
                            Ok(
                                (
                                    TreeEntryView {
                                        mode: decode_utf8(content.take(mode_end)),
                                        name: decode_utf8(after_mode.take(name_end)),
                                        hash: hex_encode(after_name.take(20)),
                                    },
                                    mode_end + name_end + 22,
                                ),
                            )
                        }
                    },
                }
            }
        },
    }
}

/// An entry that `parse_entry` finds takes at least 22 bytes and no more than
/// there are.
pub proof fn lemma_parse_entry(content: Seq<u8>)
    ensures
        parse_entry(content) matches Ok((_, used)) ==> 22 <= used <= content.len(),
{
    lemma_position(content, 0x20);
    if let Some(mode_end) = position(content, 0x20) {
        lemma_position(content.skip(mode_end + 1), 0);
    }
}

/// `entries` and then what `rest` holds.
pub open spec fn and_then_entries(
    entries: Seq<TreeEntryView>,
    rest: Result<Seq<TreeEntryView>, DecodeError>,
) -> Result<Seq<TreeEntryView>, DecodeError> {
    match rest {
        Ok(more) => Ok(entries + more),
        Err(e) => Err(e),
    }
}

/// The entries that the content of a snapshot holds, one after the other
/// until the content is used up.
pub open spec fn parse_entries(content: Seq<u8>) -> Result<Seq<TreeEntryView>, DecodeError>
    decreases content.len(),
{
    if content.len() == 0 {
        Ok(Seq::<TreeEntryView>::empty())
    } else {
        match parse_entry(content) {
            Err(e) => Err(e),
            Ok((entry, used)) => {
                proof {
                    lemma_parse_entry(content);
                }
                and_then_entries(seq![entry], parse_entries(content.skip(used)))
            },
        }
    }
}

/// Whether the child address of every entry is an address.
fn entries_valid(entries: &Vec<TreeEntry>) -> (valid: bool)
    ensures
        valid == addresses_valid(views(entries@)),
{
    let mut i: usize = 0;
    while i < entries.len()
        invariant
            i <= entries@.len(),
            forall|k: int| 0 <= k < i ==> is_address((#[trigger] views(entries@)[k]).hash),
        decreases entries@.len() - i,
    {
        if !is_valid_address(entries[i].hash.as_str()) {
            assert(!is_address(views(entries@)[i as int].hash));
            return false;
        }
        i += 1;
    }
    true
}

/// Whether the mode and the name of every entry are a mode and a name.
fn names_checked(entries: &Vec<TreeEntry>) -> (valid: bool)
    ensures
        valid == names_valid(views(entries@)),
{
    let mut i: usize = 0;
    while i < entries.len()
        invariant
            i <= entries@.len(),
            forall|k: int|
                0 <= k < i ==> valid_mode((#[trigger] views(entries@)[k]).mode) && valid_name(
                    views(entries@)[k].name,
                ),
        decreases entries@.len() - i,
    {
        let entry = &entries[i];
        assert(views(entries@)[i as int] == entry@);
        if contains_char(entry.mode.as_str(), ' ') || contains_char(entry.name.as_str(), '/')
            || contains_char(entry.name.as_str(), '\0') {
            return false;
        }
        i += 1;
    }
    true
}

/// The payload of a snapshot with the given entries.
fn entries_payload(entries: &Vec<TreeEntry>) -> (data: Vec<u8>)
    requires
        addresses_valid(views(entries@)),
    ensures
        data@ == entries_bytes(views(entries@)),
{
    let ghost all = views(entries@);
    let mut data: Vec<u8> = Vec::new();
    let mut i: usize = 0;
    assert(all.take(0) == Seq::<TreeEntryView>::empty());
    while i < entries.len()
        invariant
            i <= entries@.len(),
            all == views(entries@),
            addresses_valid(all),
            data@ == entries_bytes(all.take(i as int)),
        decreases entries@.len() - i,
    {
        let entry = &entries[i];
        assert(all[i as int] == entry@);
        data.extend_from_slice(entry.mode.as_str().as_bytes());
        data.push(0x20);
        data.extend_from_slice(entry.name.as_str().as_bytes());
        data.push(OBJECT_CONTENT_SEPARATOR);
        let raw = hex_decode_text(entry.hash.as_str()).unwrap();
        data.extend_from_slice(raw.as_slice());
        proof {
            lemma_entries_bytes_concat(all.take(i as int), seq![entry@]);
            assert(seq![entry@].drop_first() == Seq::<TreeEntryView>::empty());
            assert(entries_bytes(Seq::<TreeEntryView>::empty()) == Seq::<u8>::empty());
            assert(all.take(i + 1) == all.take(i as int) + seq![entry@]);
        }
        i += 1;
    }
    assert(all.take(i as int) == all);
    data
}

impl Tree {
    /// What `new` makes of the given entries: `InvalidAddress` where the
    /// child address of an entry is no address, else `InvalidField` where a
    /// mode holds a space or a name holds `/` or NUL, else `TooLarge` where
    /// the encoding is longer than SHA-1 can digest, else the entries in the
    /// order of their names under the address of their encoding.
    pub open spec fn built(entries: Seq<EntryModel>) -> Result<TreeModel, StoreError> {
        let sorted = sort_by_name(entries);
        let data = canonical(HEADER_PREFIX@, entries_bytes(shallow(sorted)));
        if !addresses_valid(shallow(entries)) {
            Err(StoreError::InvalidAddress)
        } else if !names_valid(shallow(entries)) {
            Err(StoreError::InvalidField)
        } else if data.len() > MAX_DIGEST_INPUT {
            Err(StoreError::TooLarge)
        } else {
            Ok(TreeModel { hash: address_of(data), entries: sorted })
        }
    }

    /// The snapshot of the given entries in the order of their names, under
    /// the address of its encoding.
    pub fn new(entries: Vec<TreeEntry>) -> (tree: Result<Tree, StoreError>)
        ensures
            match Tree::built(entries_model(entries@)) {
                Ok(v) => tree.is_ok() && tree_model(tree.unwrap()) == v && is_address(v.hash)
                    && sorted_by_name(v.entries) && v.entries.to_multiset() == entries_model(
                    entries@,
                ).to_multiset() && all_plain(shallow(v.entries)) && names_valid(shallow(v.entries))
                    && tree.unwrap().encodable(),
                Err(e) => tree == Err::<Tree, StoreError>(e),
            },
    {
        proof {
            lemma_views_shallow(entries@);
        }
        if !entries_valid(&entries) {
            return Err(StoreError::InvalidAddress);
        }
        if !names_checked(&entries) {
            return Err(StoreError::InvalidField);
        }
        let sorted = sort_entries(entries);
        proof {
            lemma_views_shallow(sorted@);
            lemma_sort_keeps_valid(entries_model(entries@));
            lemma_sort_sorted(entries_model(entries@));
            lemma_sort_permutes(entries_model(entries@));
        }
        let payload = entries_payload(&sorted);
        let data = encode_object(HEADER_PREFIX, payload.as_slice());
        if data.len() as u64 > MAX_DIGEST_INPUT {
            return Err(StoreError::TooLarge);
        }
        let hash = compute_sha1_from_bytes(data.as_slice());
        Ok(Tree { base: GitObjectBase { hash }, entries: sorted })
    }

    /// Whether the child address of every entry is an address.
    pub fn is_encodable(&self) -> (valid: bool)
        ensures
            valid == self.encodable(),
    {
        entries_valid(&self.entries)
    }

    /// No entry holds its child.
    pub open spec fn detached(&self) -> bool {
        forall|i: int| 0 <= i < self.entries@.len() ==> (#[trigger] self.entries@[i]).object.is_none()
    }
}

/// The entries without their children are what the store keeps of them.
pub proof fn lemma_views_shallow(entries: Seq<TreeEntry>)
    ensures
        shallow(entries_model(entries)) == views(entries),
{
    assert(shallow(entries_model(entries)) =~= views(entries));
}

/// An entry with an address for its child, a mode and a name.
pub open spec fn valid_entry(entry: EntryModel) -> bool {
    &&& is_address(entry.entry.hash)
    &&& valid_mode(entry.entry.mode)
    &&& valid_name(entry.entry.name)
}

/// Sorting keeps the entries valid, and valid entries are plain.
pub proof fn lemma_sort_keeps_valid(entries: Seq<EntryModel>)
    requires
        addresses_valid(shallow(entries)),
        names_valid(shallow(entries)),
    ensures
        addresses_valid(shallow(sort_by_name(entries))),
        names_valid(shallow(sort_by_name(entries))),
        all_plain(shallow(sort_by_name(entries))),
{
    let sorted = sort_by_name(entries);
    assert forall|i: int| 0 <= i < entries.len() implies valid_entry(#[trigger] entries[i]) by {
        assert(shallow(entries)[i] == entries[i].entry);
    }
    lemma_sort_keeps(entries, |e: EntryModel| valid_entry(e));
    assert forall|i: int| 0 <= i < shallow(sorted).len() implies is_address(
        (#[trigger] shallow(sorted)[i]).hash,
    ) && valid_mode(shallow(sorted)[i].mode) && valid_name(shallow(sorted)[i].name)
        && plain_entry(shallow(sorted)[i]) by {
        let entry = sorted[i].entry;
        assert forall|k: int| 0 <= k < entry.mode.len() implies #[trigger] entry.mode[k] != ' ' by {
            if entry.mode[k] == ' ' {
                assert(entry.mode.contains(' '));
            }
        }
        assert forall|k: int| 0 <= k < entry.name.len() implies #[trigger] entry.name[k]
            != '\0' by {
            if entry.name[k] == '\0' {
                assert(entry.name.contains('\0'));
            }
        }
    }
}

impl GitObject for Tree {
    open spec fn address(&self) -> Seq<char> {
        self.base.hash@
    }

    open spec fn tag(&self) -> Seq<char> {
        HEADER_PREFIX@
    }

    open spec fn encodable(&self) -> bool {
        addresses_valid(self@.entries)
    }

    open spec fn payload(&self) -> Seq<u8> {
        entries_bytes(self@.entries)
    }

    open spec fn decoded(hash: Seq<char>, content: Seq<u8>) -> Result<TreeView, DecodeError> {
        match parse_entries(content) {
            Ok(entries) => Ok(TreeView { hash, entries }),
            Err(e) => Err(e),
        }
    }

    fn get_hash(&self) -> (hash: &str) {
        self.base.hash.as_str()
    }

    fn get_header_prefix(&self) -> (prefix: &'static str) {
        HEADER_PREFIX
    }

    fn compute_size(&self) -> (size: usize) {
        entries_payload(&self.entries).len()
    }

    fn compute_object_data(&self) -> (data: Vec<u8>) {
        let payload = entries_payload(&self.entries);
        encode_object(HEADER_PREFIX, payload.as_slice())
    }

    fn from_object_file(hash: &str, content: &[u8]) -> (object: Result<Tree, DecodeError>)
        ensures
            object matches Ok(tree) ==> tree.detached() && tree.encodable(),
    {
        let mut entries: Vec<TreeEntry> = Vec::new();
        let mut idx: usize = 0;
        assert(content@.skip(0) == content@);
        assert(parse_entries(content@) == and_then_entries(
            views(entries@),
            parse_entries(content@),
        )) by {
            match parse_entries(content@) {
                Ok(more) => {
                    assert(views(entries@) + more == more);
                },
                Err(e) => {},
            }
        }
        while idx < content.len()
            invariant
                idx <= content@.len(),
                parse_entries(content@) == and_then_entries(
                    views(entries@),
                    parse_entries(content@.skip(idx as int)),
                ),
                forall|i: int| 0 <= i < entries@.len() ==> (#[trigger] entries@[i]).object.is_none(),
                addresses_valid(views(entries@)),
            decreases content@.len() - idx,
        {
            let ghost remaining = content@.skip(idx as int);
            proof {
                lemma_position(remaining, 0x20);
                lemma_parse_entry(remaining);
            }
            let mode_end = match find_byte(content, idx, 0x20) {
                Some(mode_end) => mode_end,
                None => { return Err(DecodeError::Truncated); },
            };
            let mode_bytes = slice_subrange(content, idx, mode_end);
            assert(mode_bytes@ == remaining.take(mode_end - idx));
            let mode = match utf8_text(mode_bytes) {
                Some(mode) => mode,
                None => { return Err(DecodeError::InvalidEncoding); },
            };
            let name_start = mode_end + 1;
            let ghost after_mode = remaining.skip(mode_end - idx + 1);
            assert(after_mode == content@.skip(name_start as int));
            proof {
                lemma_position(after_mode, 0);
            }
            let name_end = match find_byte(content, name_start, OBJECT_CONTENT_SEPARATOR) {
                Some(name_end) => name_end,
                None => { return Err(DecodeError::Truncated); },
            };
            let name_bytes = slice_subrange(content, name_start, name_end);
            assert(name_bytes@ == after_mode.take(name_end - name_start));
            let name = match utf8_text(name_bytes) {
                Some(name) => name,
                None => { return Err(DecodeError::InvalidEncoding); },
            };
            let hash_start = name_end + 1;
            let ghost after_name = after_mode.skip(name_end - name_start + 1);
            assert(after_name == content@.skip(hash_start as int));
            if content.len() - hash_start < RAW_HASH_SIZE {
                return Err(DecodeError::Truncated);
            }
            let raw = slice_subrange(content, hash_start, hash_start + RAW_HASH_SIZE);
            assert(raw@ == after_name.take(20));
            let entry = TreeEntry {
                mode: mode.to_owned(),
                name: name.to_owned(),
                hash: hex_encode_bytes(raw),
                object: None,
            };
            let ghost used = hash_start + RAW_HASH_SIZE - idx;
            assert(parse_entry(remaining) == Ok::<(TreeEntryView, int), DecodeError>(
                (entry@, used as int),
            ));
            assert(remaining.skip(used as int) == content@.skip(idx + used));
            let ghost before = views(entries@);
            proof {
                lemma_hex_encode_is_address(raw@);
            }
            entries.push(entry);
            proof {
                assert(views(entries@) == before + seq![entry@]);
                match parse_entries(content@.skip(idx + used)) {
                    Ok(more) => {
                        assert(before + (seq![entry@] + more) == (before + seq![entry@]) + more);
                    },
                    Err(e) => {},
                }
            }
            idx = hash_start + RAW_HASH_SIZE;
        }
        Ok(Tree { base: GitObjectBase { hash: hash.to_owned() }, entries })
    }
}

/// The encoding of a plain entry, with anything after it, holds that entry
/// at its start.
pub proof fn lemma_entry_round_trip(entry: TreeEntryView, rest: Seq<u8>)
    requires
        plain_entry(entry),
    ensures
        parse_entry(entry_bytes(entry) + rest) == Ok::<(TreeEntryView, int), DecodeError>(
            (entry, entry_bytes(entry).len() as int),
        ),
        (entry_bytes(entry) + rest).skip(entry_bytes(entry).len() as int) == rest,
{
    let mode = encode_utf8(entry.mode);
    let name = encode_utf8(entry.name);
    let raw = hex_decode(entry.hash);
    let content = entry_bytes(entry) + rest;
    let after_mode = name + seq![0u8] + (raw + rest);
    let after_name = raw + rest;
    assert(content == mode + seq![' ' as u8] + after_mode);
    lemma_position_after_text(entry.mode, ' ', after_mode);
    assert(content.take(mode.len() as int) == mode);
    assert(content.skip(mode.len() as int + 1) == after_mode);
    encode_utf8_valid_utf8(entry.mode);
    encode_utf8_decode_utf8(entry.mode);
    lemma_position_after_text(entry.name, '\0', after_name);
    assert(after_mode.take(name.len() as int) == name);
    assert(after_mode.skip(name.len() as int + 1) == after_name);
    encode_utf8_valid_utf8(entry.name);
    encode_utf8_decode_utf8(entry.name);
    lemma_hex_encode_decode(entry.hash);
    assert(after_name.take(20) == raw);
}

/// Decoding undoes encoding: the payload of a snapshot with plain entries
/// decodes to these entries.
pub proof fn lemma_entries_round_trip(entries: Seq<TreeEntryView>)
    requires
        all_plain(entries),
    ensures
        parse_entries(entries_bytes(entries)) == Ok::<Seq<TreeEntryView>, DecodeError>(entries),
    decreases entries.len(),
{
    if entries.len() == 0 {
        assert(entries == Seq::<TreeEntryView>::empty());
    } else {
        let rest = entries.drop_first();
        assert forall|i: int| 0 <= i < rest.len() implies plain_entry(#[trigger] rest[i]) by {
            assert(rest[i] == entries[i + 1]);
        }
        lemma_entries_round_trip(rest);
        lemma_entry_round_trip(entries[0], entries_bytes(rest));
        assert(seq![entries[0]] + rest == entries);
    }
}

} // verus!
