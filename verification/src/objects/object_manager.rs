//! What the store offers its callers: storing content, snapshots and
//! revisions, and loading an object back.

use crate::error::StoreError;
use crate::fs_reader::FsNode;
use crate::objects::blob::Blob;
use crate::objects::commit::Commit;
use crate::objects::commit::lemma_default_author_valid;
use crate::objects::commit::text_of;
use crate::objects::object_kind::GitObjectKind;
use crate::objects::object_kind::ObjectModel;
use crate::objects::object_kind::model_of;
use crate::objects::object_reader::GitObjectReader;
use crate::objects::object_reader::file_of;
use crate::objects::object_reader::load;
use crate::objects::object_reader::loaded;
use crate::objects::object_transformer::GitObjectTransformer;
use crate::objects::object_transformer::build;
use crate::objects::object_writer::GitObjectWriter;
use crate::objects::object_writer::StoredObject;
use crate::objects::object_writer::StoredView;
use crate::objects::object_writer::plan;
use crate::objects::object_writer::stored_views;
use crate::objects::utils::is_address;
use vstd::prelude::*;
use vstd::string::*;

verus! {

/// The byte that ends the header of an encoding.
pub const OBJECT_CONTENT_SEPARATOR: u8 = 0;

/// The directory of the objects, below the directory that was made a store.
pub const GIT_OBJECTS_DIR: &'static str = ".git/objects";

/// What a write of `object` makes: the object, and the files that hold it.
pub open spec fn written(object: Result<ObjectModel, StoreError>) -> Result<
    (ObjectModel, Seq<StoredView>),
    StoreError,
> {
    match object {
        Err(e) => Err(e),
        Ok(object) => match plan(object) {
            Err(e) => Err(e),
            Ok(files) => Ok((object, files)),
        },
    }
}

/// Loads the object of the address `hash` from `stored`, the file at the place
/// of `hash`, if there is one.
pub fn read_object(hash: &str, stored: Option<&[u8]>) -> (object: Result<
    GitObjectKind,
    StoreError,
>)
    ensures
        match load(hash@, file_of(stored)) {
            Ok(v) => object.is_ok() && object.unwrap()@ == v && loaded(object.unwrap()),
            Err(e) => object == Err::<GitObjectKind, StoreError>(e),
        },
        !is_address(hash@) ==> object == Err::<GitObjectKind, StoreError>(
            StoreError::InvalidAddress,
        ),
        is_address(hash@) && stored.is_none() ==> object == Err::<GitObjectKind, StoreError>(
            StoreError::NotFound,
        ),
{
    let reader = GitObjectReader;
    reader.read_object(hash, stored)
}

/// Builds the object of what stands at a path, and the files that hold it
/// and all objects below it, children before parents. What no object can be
/// built of is left out of its directory.
pub fn create_object(root: &FsNode) -> (created: Result<
    (GitObjectKind, Vec<StoredObject>),
    StoreError,
>)
    ensures
        match written(build(*root, false)) {
            Ok((object, files)) => created.is_ok() && model_of(created.unwrap().0) == object
                && stored_views(created.unwrap().1@) == files,
            Err(e) => created == Err::<(GitObjectKind, Vec<StoredObject>), StoreError>(e),
        },
        *root is File && created.is_ok() ==> created.unwrap().0 is Blob,
        *root is Directory && created.is_ok() ==> created.unwrap().0 is Tree,
        *root is Directory ==> created.is_ok() || created == Err::<
            (GitObjectKind, Vec<StoredObject>),
            StoreError,
        >(StoreError::TooLarge) || created == Err::<(GitObjectKind, Vec<StoredObject>), StoreError>(
            StoreError::Io,
        ),
{
    let transformer = GitObjectTransformer::new(false);
    let writer = GitObjectWriter;
    let object = match transformer.transform_fs_to_object(root) {
        Ok(object) => object,
        Err(e) => { return Err(e); },
    };
    match writer.write_object(&object) {
        Ok(files) => Ok((object, files)),
        Err(e) => Err(e),
    }
}

/// Builds the revision of the snapshot `tree_hash` after `parent_hash`, by
/// the default author, and the file that holds it.
pub fn create_commit(tree_hash: &String, parent_hash: &Option<String>, message: &String) -> (created:
    Result<(GitObjectKind, Vec<StoredObject>), StoreError>)
    ensures
        match written(
            match Commit::built(tree_hash@, text_of(*parent_hash), message@, None) {
                Ok(commit) => Ok(ObjectModel::Commit(commit)),
                Err(e) => Err(e),
            },
        ) {
            Ok((object, files)) => created.is_ok() && model_of(created.unwrap().0) == object
                && stored_views(created.unwrap().1@) == files,
            Err(e) => created == Err::<(GitObjectKind, Vec<StoredObject>), StoreError>(e),
        },
        created.is_ok() ==> created.unwrap().0 is Commit,
        is_address(tree_hash@) && (*parent_hash matches Some(parent) ==> is_address(parent@))
            && !message@.contains('\0') ==> created.is_ok() || created == Err::<
            (GitObjectKind, Vec<StoredObject>),
            StoreError,
        >(StoreError::TooLarge) || created == Err::<(GitObjectKind, Vec<StoredObject>), StoreError>(
            StoreError::Io,
        ),
{
    proof {
        lemma_default_author_valid();
    }
    let writer = GitObjectWriter;
    let commit = match Commit::new(tree_hash, parent_hash, message, None) {
        Ok(commit) => GitObjectKind::Commit(commit),
        Err(e) => { return Err(e); },
    };
    match writer.write_object(&commit) {
        Ok(files) => Ok((commit, files)),
        Err(e) => Err(e),
    }
}

/// The address of the content object of a file with the given bytes, and,
/// where `write_mode` is set, the file that holds the object.
pub fn file_to_hash(content: Vec<u8>, write_mode: bool) -> (hashed: Result<
    (String, Vec<StoredObject>),
    StoreError,
>)
    ensures
        match Blob::built(content@) {
            Err(e) => hashed == Err::<(String, Vec<StoredObject>), StoreError>(e),
            Ok(blob) => if write_mode {
                match plan(ObjectModel::Blob(blob)) {
                    Ok(files) => hashed.is_ok() && hashed.unwrap().0@ == blob.hash && stored_views(
                        hashed.unwrap().1@,
                    ) == files,
                    Err(e) => hashed == Err::<(String, Vec<StoredObject>), StoreError>(e),
                }
            } else {
                hashed.is_ok() && hashed.unwrap().0@ == blob.hash && hashed.unwrap().1@.len() == 0
            },
        },
{
    let writer = GitObjectWriter;
    let blob = match Blob::new(content) {
        Ok(blob) => blob,
        Err(e) => { return Err(e); },
    };
    let hash = blob.base.hash.clone();
    if !write_mode {
        return Ok((hash, Vec::new()));
    }
    match writer.write_object(&GitObjectKind::Blob(blob)) {
        Ok(files) => Ok((hash, files)),
        Err(e) => Err(e),
    }
}

} // verus!
