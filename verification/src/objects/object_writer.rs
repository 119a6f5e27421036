//! The write path of the store: from an object to the files that hold it and
//! its children.

use crate::error::StoreError;
use crate::objects::blob;
use crate::objects::commit::payload_text;
use crate::objects::commit;
use crate::objects::object_base::GitObject;
use crate::objects::object_base::canonical;
use crate::objects::object_kind::EntryModel;
use crate::objects::object_kind::GitObjectKind;
use crate::objects::object_kind::ObjectModel;
use crate::objects::object_kind::TreeModel;
use crate::objects::object_kind::entries_model;
use crate::objects::object_kind::model_address;
use crate::objects::object_kind::model_of;
use crate::objects::object_kind::shallow;
use crate::objects::object_kind::tree_model;
use crate::objects::object_reader::bytes_of;
use crate::objects::object_reader::zlib_inflate;
use crate::objects::tree::Tree;
use crate::objects::tree::addresses_valid;
use crate::objects::tree::entries_bytes;
use crate::objects::tree::lemma_views_shallow;
use crate::objects::tree;
use crate::objects::utils::ObjectPath;
use crate::objects::utils::is_address;
use flate2::write::ZlibEncoder;
use flate2::Compression;
use std::io::Write;
use vstd::prelude::*;
use vstd::string::*;
use vstd::utf8::*;

verus! {

/// The zlib stream that the compressor makes of `data` at its default level;
/// nothing where the compressor reports an error.
pub uninterp spec fn zlib_deflate(data: Seq<u8>) -> Option<Seq<u8>>;

/// `ZlibEncoder::new` of `flate2::write` over a vector, at the default level,
/// with `write_all` and `finish`: the compressed bytes, or nothing where the
/// encoder reports an error. What it returns decompresses to `data`.
#[verifier::external_body]
fn deflate(data: &[u8]) -> (out: Option<Vec<u8>>)
    ensures
        bytes_of(out) == zlib_deflate(data@),
        out.is_some() ==> zlib_inflate(out.unwrap()@) == Some(data@),
{
    let mut encoder = ZlibEncoder::new(Vec::new(), Compression::default());
    match encoder.write_all(data) {
        Ok(()) => encoder.finish().ok(),
        Err(_) => None,
    }
}

/// The zlib stream of `data` that the store keeps: what the compressor makes
/// of `data`, where that decompresses to `data` again.
pub open spec fn packed(data: Seq<u8>) -> Option<Seq<u8>> {
    match zlib_deflate(data) {
        Some(stream) => if zlib_inflate(stream) == Some(data) {
            Some(stream)
        } else {
            None
        },
        None => None,
    }
}

/// The zlib stream of `data`, if the compressor makes one.
pub fn pack(data: &[u8]) -> (out: Option<Vec<u8>>)
    ensures
        bytes_of(out) == packed(data@),
{
    deflate(data)
}

/// A file of the store: its place below the root, and the bytes it holds.
#[derive(Debug, PartialEq, Eq)]
pub struct StoredObject {
    pub path: ObjectPath,
    pub data: Vec<u8>,
}

/// A file of the store as values.
pub struct StoredView {
    pub dir: Seq<char>,
    pub file: Seq<char>,
    pub data: Seq<u8>,
}

impl View for StoredObject {
    type V = StoredView;

    open spec fn view(&self) -> StoredView {
        StoredView { dir: self.path.dir@, file: self.path.file@, data: self.data@ }
    }
}

/// Each file as values.
pub open spec fn stored_views(files: Seq<StoredObject>) -> Seq<StoredView> {
    files.map_values(|f: StoredObject| f@)
}

/// The file that holds the encoding `data` of an object with the address
/// `address`, given what the compressor made of `data`.
pub open spec fn stored_form(address: Seq<char>, compressed: Option<Seq<u8>>) -> Result<
    StoredView,
    StoreError,
> {
    if !is_address(address) {
        Err(StoreError::InvalidAddress)
    } else {
        match compressed {
            None => Err(StoreError::Io),
            Some(bytes) => Ok(
                StoredView { dir: address.take(2), file: address.skip(2), data: bytes },
            ),
        }
    }
}

/// `files`, and after them `file`.
pub open spec fn and_then_file(
    files: Result<Seq<StoredView>, StoreError>,
    file: Result<StoredView, StoreError>,
) -> Result<Seq<StoredView>, StoreError> {
    match files {
        Err(e) => Err(e),
        Ok(before) => match file {
            Err(e) => Err(e),
            Ok(last) => Ok(before.push(last)),
        },
    }
}

/// `files`, and after them `more`.
pub open spec fn and_then_files(
    files: Result<Seq<StoredView>, StoreError>,
    more: Result<Seq<StoredView>, StoreError>,
) -> Result<Seq<StoredView>, StoreError> {
    match files {
        Err(e) => Err(e),
        Ok(before) => match more {
            Err(e) => Err(e),
            Ok(after) => Ok(before + after),
        },
    }
}

/// The files that a write of `object` makes: those of the children that its
/// entries hold, in the order of the entries, and after them its own.
pub open spec fn plan(object: ObjectModel) -> Result<Seq<StoredView>, StoreError>
    decreases object,
{
    match object {
        ObjectModel::Blob(blob) => and_then_file(
            Ok(Seq::<StoredView>::empty()),
            stored_form(
                blob.hash,
                packed(canonical(blob::HEADER_PREFIX@, encode_utf8(blob.content))),
            ),
        ),
        ObjectModel::Tree(tree) => plan_tree(tree),
        ObjectModel::Commit(commit) => and_then_file(
            Ok(Seq::<StoredView>::empty()),
            stored_form(
                commit.hash,
                packed(canonical(commit::HEADER_PREFIX@, encode_utf8(payload_text(commit)))),
            ),
        ),
    }
}

/// The files that a write of the snapshot makes. It fails with
/// `InvalidAddress` where the child address of an entry is no address.
pub open spec fn plan_tree(tree: TreeModel) -> Result<Seq<StoredView>, StoreError>
    decreases tree,
{
    match plan_entries(tree.entries) {
        Err(e) => Err(e),
        Ok(children) => if !addresses_valid(shallow(tree.entries)) {
            Err(StoreError::InvalidAddress)
        } else {
            and_then_file(
                Ok(children),
                stored_form(
                    tree.hash,
                    packed(
                        canonical(tree::HEADER_PREFIX@, entries_bytes(shallow(tree.entries))),
                    ),
                ),
            )
        },
    }
}

/// The files that a write of the children makes that the entries hold.
pub open spec fn plan_entries(entries: Seq<EntryModel>) -> Result<Seq<StoredView>, StoreError>
    decreases entries,
{
    if entries.len() == 0 {
        Ok(Seq::<StoredView>::empty())
    } else {
        match entries.last().object {
            None => plan_entries(entries.drop_last()),
            Some(child) => and_then_files(plan_entries(entries.drop_last()), plan(child)),
        }
    }
}

/// Every object in `object`, at any depth, carries an address, and every
/// snapshot lists its children under addresses.
pub open spec fn writable(object: ObjectModel) -> bool
    decreases object,
{
    &&& is_address(model_address(object))
    &&& object matches ObjectModel::Tree(tree) ==> {
        &&& addresses_valid(shallow(tree.entries))
        &&& forall|i: int|
            0 <= i < tree.entries.len() ==> (#[trigger] tree.entries[i].object matches Some(
                child,
            ) ==> writable(child))
    }
}

/// The child that the entry holds, if it holds one, is writable.
pub open spec fn child_writable(entry: EntryModel) -> bool {
    entry.object matches Some(child) ==> writable(child)
}

/// Nothing but the compressor fails the write of a writable object.
pub proof fn lemma_writable_plan(object: ObjectModel)
    requires
        writable(object),
    ensures
        plan(object).is_ok() || plan(object) == Err::<Seq<StoredView>, StoreError>(StoreError::Io),
    decreases object,
{
    if let ObjectModel::Tree(tree) = object {
        lemma_writable_entries(tree.entries, tree.entries.len() as int);
        assert(tree.entries.take(tree.entries.len() as int) == tree.entries);
    }
}

/// Nothing but the compressor fails the write of the writable children of
/// the first `count` entries.
pub proof fn lemma_writable_entries(entries: Seq<EntryModel>, count: int)
    requires
        0 <= count <= entries.len(),
        forall|i: int| 0 <= i < entries.len() ==> child_writable(#[trigger] entries[i]),
    ensures
        plan_entries(entries.take(count)).is_ok() || plan_entries(entries.take(count)) == Err::<
            Seq<StoredView>,
            StoreError,
        >(StoreError::Io),
    decreases entries, count,
{
    if count > 0 {
        let first = entries.take(count);
        assert(first.drop_last() == entries.take(count - 1));
        lemma_writable_entries(entries, count - 1);
        if let Some(child) = entries[count - 1].object {
            lemma_writable_plan(child);
        }
    }
}

/// What is left to write of a file: nothing where a file stands at its
/// place, and the file where none does.
pub open spec fn left_to_write(file: StoredView, exists: bool) -> Option<StoredView> {
    if exists {
        None
    } else {
        Some(file)
    }
}

/// The writer of the store.
pub struct GitObjectWriter;

impl GitObjectWriter {
    /// The files that hold `object` and the children that its entries hold,
    /// children before parents. Fails with `InvalidAddress` where one of the
    /// objects carries no address or lists a child under what is no address,
    /// and with `Io` where the compressor fails.
    pub fn write_object(&self, object: &GitObjectKind) -> (written: Result<
        Vec<StoredObject>,
        StoreError,
    >)
        ensures
            match plan(model_of(*object)) {
                Ok(files) => written.is_ok() && stored_views(written.unwrap()@) == files,
                Err(e) => written == Err::<Vec<StoredObject>, StoreError>(e),
            },
            writable(model_of(*object)) ==> written.is_ok() || written == Err::<
                Vec<StoredObject>,
                StoreError,
            >(StoreError::Io),
    {
        proof {
            if writable(model_of(*object)) {
                lemma_writable_plan(model_of(*object));
            }
        }
        match object {
            GitObjectKind::Blob(blob) => self.write_leaf(blob),
            GitObjectKind::Tree(tree) => self.write_tree(tree),
            GitObjectKind::Commit(commit) => self.write_leaf(commit),
        }
    }

    /// What becomes of a file that is about to be written: `AlreadyExists`
    /// where a file stands at its place, and the file itself where none does.
    pub fn write_once(&self, file: StoredObject, exists: bool) -> (fresh: Result<
        StoredObject,
        StoreError,
    >)
        ensures
            exists ==> fresh == Err::<StoredObject, StoreError>(StoreError::AlreadyExists),
            !exists ==> fresh == Ok::<StoredObject, StoreError>(file),
    {
        if exists {
            Err(StoreError::AlreadyExists)
        } else {
            Ok(file)
        }
    }

    /// What is left to write of a file: nothing where a file stands at its
    /// place, for then the object is stored already, and the file itself
    /// where none does. This is `write_once` for a caller to whom an object
    /// that exists already is as good as one that was written.
    pub fn write_if_absent(&self, file: StoredObject, exists: bool) -> (left: Option<StoredObject>)
        ensures
            exists ==> left.is_none(),
            !exists ==> left == Some(file),
            match left {
                Some(kept) => Some(kept@),
                None => None,
            } == left_to_write(file@, exists),
    {
        match self.write_once(file, exists) {
            Ok(file) => Some(file),
            Err(_) => None,
        }
    }

    /// The file at `path` that holds `compressed`, what the compressor made
    /// of an encoding; `Io` where it made nothing.
    pub fn stored_object(path: ObjectPath, compressed: Option<Vec<u8>>) -> (file: Result<
        StoredObject,
        StoreError,
    >)
        ensures
            match compressed {
                Some(data) => file == Ok::<StoredObject, StoreError>(StoredObject { path, data }),
                None => file == Err::<StoredObject, StoreError>(StoreError::Io),
            },
    {
        match compressed {
            Some(data) => Ok(StoredObject { path, data }),
            None => Err(StoreError::Io),
        }
    }

    /// The file that holds `object`.
    fn write_individual_object<T: GitObject>(&self, object: &T) -> (file: Result<
        StoredObject,
        StoreError,
    >)
        requires
            object.encodable(),
        ensures
            match stored_form(
                object.address(),
                packed(canonical(object.tag(), object.payload())),
            ) {
                Ok(v) => file.is_ok() && file.unwrap()@ == v,
                Err(e) => file == Err::<StoredObject, StoreError>(e),
            },
    {
        let object_data = object.compute_object_data();
        let path = match object.compute_file_path() {
            Ok(path) => path,
            Err(e) => { return Err(e); },
        };
        GitObjectWriter::stored_object(path, pack(object_data.as_slice()))
    }

    /// The one file that holds an object without children.
    fn write_leaf<T: GitObject>(&self, object: &T) -> (written: Result<
        Vec<StoredObject>,
        StoreError,
    >)
        requires
            object.encodable(),
        ensures
            match and_then_file(
                Ok(Seq::<StoredView>::empty()),
                stored_form(
                    object.address(),
                    packed(canonical(object.tag(), object.payload())),
                ),
            ) {
                Ok(files) => written.is_ok() && stored_views(written.unwrap()@) == files,
                Err(e) => written == Err::<Vec<StoredObject>, StoreError>(e),
            },
    {
        match self.write_individual_object(object) {
            Ok(file) => {
                let mut written: Vec<StoredObject> = Vec::new();
                written.push(file);
                Ok(written)
            },
            Err(e) => Err(e),
        }
    }

    /// The files that hold the snapshot and the children that its entries hold.
    fn write_tree(&self, tree: &Tree) -> (written: Result<Vec<StoredObject>, StoreError>)
        ensures
            match plan_tree(tree_model(*tree)) {
                Ok(files) => written.is_ok() && stored_views(written.unwrap()@) == files,
                Err(e) => written == Err::<Vec<StoredObject>, StoreError>(e),
            },
        decreases *tree,
    {
        let ghost models = entries_model(tree.entries@);
        let mut written: Vec<StoredObject> = Vec::new();
        let mut i: usize = 0;
        assert(models.take(0) == Seq::<EntryModel>::empty());
        assert(stored_views(written@) == Seq::<StoredView>::empty());
        while i < tree.entries.len()
            invariant
                i <= tree.entries@.len(),
                models == entries_model(tree.entries@),
                plan_entries(models.take(i as int)) == Ok::<Seq<StoredView>, StoreError>(
                    stored_views(written@),
                ),
            decreases tree.entries@.len() - i,
        {
            let ghost before = stored_views(written@);
            let ghost next = models.take(i + 1);
            assert(next.drop_last() == models.take(i as int));
            let ghost child = match tree.entries@[i as int].object {
                Some(object) => plan(model_of(object)),
                None => Ok(Seq::<StoredView>::empty()),
            };
            assert(plan_entries(next) == and_then_files(Ok(before), child)) by {
                assert(before + Seq::<StoredView>::empty() == before);
            }
            let more = match &tree.entries[i].object {
                Some(GitObjectKind::Blob(blob)) => self.write_leaf(blob),
                Some(GitObjectKind::Tree(sub_tree)) => {
                    self.write_tree(sub_tree)
                },
                Some(GitObjectKind::Commit(commit)) => self.write_leaf(commit),
                None => Ok(Vec::new()),
            };
            match more {
                Ok(mut files) => {
                    let ghost added = stored_views(files@);
                    written.append(&mut files);
                    assert(stored_views(written@) == before + added);
                },
                Err(e) => {
                    proof {
                        lemma_plan_entries_fails(models, i + 1);
                    }
                    return Err(e);
                },
            }
            i += 1;
        }
        assert(models.take(i as int) == models);
        proof {
            lemma_views_shallow(tree.entries@);
        }
        if !tree.is_encodable() {
            return Err(StoreError::InvalidAddress);
        }
        match self.write_individual_object(tree) {
            Ok(file) => {
                written.push(file);
                Ok(written)
            },
            Err(e) => Err(e),
        }
    }
}

/// Where the children of the first entries cannot be written, those of all
/// entries cannot, for the same reason.
pub proof fn lemma_plan_entries_fails(entries: Seq<EntryModel>, count: int)
    requires
        0 <= count <= entries.len(),
        plan_entries(entries.take(count)) is Err,
    ensures
        plan_entries(entries) == plan_entries(entries.take(count)),
    decreases entries.len() - count,
{
    if count < entries.len() {
        let next = entries.take(count + 1);
        assert(next.drop_last() == entries.take(count));
        lemma_plan_entries_fails(entries, count + 1);
    } else {
        assert(entries.take(count) == entries);
    }
}

} // verus!
