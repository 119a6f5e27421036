//! The snapshot builder: from what was read of the file system to objects.

use crate::error::StoreError;
use crate::fs_reader::FsEntry;
use crate::fs_reader::FsNode;
use crate::objects::blob::Blob;
use crate::objects::object_base::GitObject;
use crate::objects::object_kind::EntryModel;
use crate::objects::object_kind::GitObjectKind;
use crate::objects::object_kind::ObjectModel;
use crate::objects::object_kind::entries_model;
use crate::objects::object_kind::model_address;
use crate::objects::object_kind::model_of;
use crate::objects::object_kind::tree_model;
use crate::objects::object_writer::child_writable;
use crate::objects::object_writer::writable;
use crate::objects::order::lemma_same_entries_keep;
use crate::objects::order::lemma_sort_permutes;
use crate::objects::text::contains_char;
use crate::objects::text::same_text;
use crate::objects::tree::Tree;
use crate::objects::tree::TreeEntry;
use crate::objects::tree::TreeEntryView;
use crate::objects::tree::addresses_valid;
use crate::objects::tree::lemma_views_shallow;
use crate::objects::tree::names_valid;
use crate::objects::tree::valid_name;
use crate::objects::tree::views;
use crate::objects::utils::is_address;
use vstd::prelude::*;
use vstd::string::*;

verus! {

/// The mode token of a regular file.
pub const FILE_MODE: &'static str = "100644";

/// The mode token of a directory.
pub const DIRECTORY_MODE: &'static str = "40000";

/// The name of the directory that holds the store; it is no part of a snapshot.
pub const STORE_DIRECTORY: &'static str = ".git";

/// The mode token of what stands at a path.
pub open spec fn mode_of(node: FsNode) -> Seq<char> {
    if node is File {
        FILE_MODE@
    } else {
        DIRECTORY_MODE@
    }
}

/// The entry for `child`, which was built into `object`.
pub open spec fn entry_for(child: FsEntry, object: ObjectModel) -> EntryModel {
    EntryModel {
        entry: TreeEntryView {
            mode: mode_of(child.node),
            name: child.name@,
            hash: model_address(object),
        },
        object: Some(object),
    }
}

/// The object that is built of what stands at a path: content of a file, a
/// snapshot of a directory, and `Io` of anything else.
pub open spec fn build(node: FsNode, fail_fast: bool) -> Result<ObjectModel, StoreError>
    decreases node,
{
    match node {
        FsNode::File(content) => match Blob::built(content@) {
            Ok(blob) => Ok(ObjectModel::Blob(blob)),
            Err(e) => Err(e),
        },
        FsNode::Directory(children) => match build_entries(children@, fail_fast) {
            Ok(entries) => match Tree::built(entries) {
                Ok(tree) => Ok(ObjectModel::Tree(tree)),
                Err(e) => Err(e),
            },
            Err(e) => Err(e),
        },
        FsNode::Unreadable => Err(StoreError::Io),
    }
}

/// The entries that are built of the children of a directory, in the order
/// of the children. The directory of the store gets no entry. A child whose
/// name is no name, or of which no object can be built, gets none either,
/// unless `fail_fast` is set: then the first such child fails the whole.
pub open spec fn build_entries(children: Seq<FsEntry>, fail_fast: bool) -> Result<
    Seq<EntryModel>,
    StoreError,
>
    decreases children,
{
    if children.len() == 0 {
        Ok(Seq::<EntryModel>::empty())
    } else {
        match build_entries(children.drop_last(), fail_fast) {
            Err(e) => Err(e),
            Ok(before) => {
                let child = children.last();
                if child.name@ == STORE_DIRECTORY@ {
                    Ok(before)
                } else if !valid_name(child.name@) {
                    if fail_fast {
                        Err(StoreError::InvalidField)
                    } else {
                        Ok(before)
                    }
                } else {
                    match build(child.node, fail_fast) {
                        Ok(object) => Ok(before.push(entry_for(child, object))),
                        Err(e) => if fail_fast {
                            Err(e)
                        } else {
                            Ok(before)
                        },
                    }
                }
            },
        }
    }
}

/// Where no entries can be built of the first children, none can be built of
/// all of them, for the same reason.
pub proof fn lemma_build_entries_fails(children: Seq<FsEntry>, fail_fast: bool, count: int)
    requires
        0 <= count <= children.len(),
        build_entries(children.take(count), fail_fast) is Err,
    ensures
        build_entries(children, fail_fast) == build_entries(children.take(count), fail_fast),
    decreases children.len() - count,
{
    if count < children.len() {
        let next = children.take(count + 1);
        assert(next.drop_last() == children.take(count));
        lemma_build_entries_fails(children, fail_fast, count + 1);
    } else {
        assert(children.take(count) == children);
    }
}

/// The snapshot builder.
pub struct GitObjectTransformer {
    /// Whether a child of which no object can be built fails the snapshot of
    /// its directory. Where it does not, the child is left out.
    pub fail_fast: bool,
}

impl GitObjectTransformer {
    /// A builder that leaves out what it cannot build, or that fails on it.
    pub fn new(fail_fast: bool) -> (transformer: GitObjectTransformer)
        ensures
            transformer.fail_fast == fail_fast,
    {
        GitObjectTransformer { fail_fast }
    }

    /// The object that is built of what stands at a path, with the objects of
    /// all that stands below it.
    pub fn transform_fs_to_object(&self, root: &FsNode) -> (object: Result<
        GitObjectKind,
        StoreError,
    >)
        ensures
            match build(*root, self.fail_fast) {
                Ok(v) => object.is_ok() && model_of(object.unwrap()) == v && is_address(
                    model_address(v),
                ) && object.unwrap().encodable() && writable(v),
                Err(e) => object == Err::<GitObjectKind, StoreError>(e),
            },
            *root is File && object.is_ok() ==> object.unwrap() is Blob,
            *root is Directory && object.is_ok() ==> object.unwrap() is Tree,
            *root is Directory && !self.fail_fast ==> object.is_ok() || object == Err::<
                GitObjectKind,
                StoreError,
            >(StoreError::TooLarge),
            object != Err::<GitObjectKind, StoreError>(StoreError::InvalidAddress),
        decreases *root,
    {
        match root {
            FsNode::File(content) => match self.transform_file_to_blob(content) {
                Ok(blob) => Ok(GitObjectKind::Blob(blob)),
                Err(e) => Err(e),
            },
            FsNode::Directory(children) => match self.transform_directory_to_tree(children) {
                Ok(tree) => Ok(GitObjectKind::Tree(tree)),
                Err(e) => Err(e),
            },
            FsNode::Unreadable => Err(StoreError::Io),
        }
    }

    /// The snapshot of a directory with the given children.
    fn transform_directory_to_tree(&self, children: &Vec<FsEntry>) -> (tree: Result<
        Tree,
        StoreError,
    >)
        ensures
            match build_entries(children@, self.fail_fast) {
                Ok(entries) => match Tree::built(entries) {
                    Ok(v) => tree.is_ok() && tree_model(tree.unwrap()) == v && is_address(v.hash)
                        && tree.unwrap().encodable() && writable(ObjectModel::Tree(v)),
                    Err(e) => tree == Err::<Tree, StoreError>(e),
                },
                Err(e) => tree == Err::<Tree, StoreError>(e),
            },
            !self.fail_fast ==> tree.is_ok() || tree == Err::<Tree, StoreError>(
                StoreError::TooLarge,
            ),
            tree != Err::<Tree, StoreError>(StoreError::InvalidAddress),
        decreases *children,
    {
        let mut entries: Vec<TreeEntry> = Vec::new();
        let mut i: usize = 0;
        assert(children@.take(0) == Seq::<FsEntry>::empty());
        assert(entries_model(entries@) == Seq::<EntryModel>::empty());
        while i < children.len()
            invariant
                i <= children@.len(),
                build_entries(children@.take(i as int), self.fail_fast) == Ok::<
                    Seq<EntryModel>,
                    StoreError,
                >(entries_model(entries@)),
                addresses_valid(views(entries@)),
                names_valid(views(entries@)),
                forall|k: int|
                    0 <= k < entries@.len() ==> child_writable(
                        #[trigger] entries_model(entries@)[k],
                    ),
            decreases children@.len() - i,
        {
            let child = &children[i];
            let ghost before = entries_model(entries@);
            let ghost next = children@.take(i + 1);
            assert(next.drop_last() == children@.take(i as int));
            if same_text(child.name.as_str(), STORE_DIRECTORY) {
                // the directory of the store is no part of a snapshot
            } else if contains_char(child.name.as_str(), '/') || contains_char(
                child.name.as_str(),
                '\0',
            ) {
                if self.fail_fast {
                    proof {
                        lemma_build_entries_fails(children@, self.fail_fast, i + 1);
                    }
                    return Err(StoreError::InvalidField);
                }
            } else {
                let mode = match &child.node {
                    FsNode::File(_) => FILE_MODE,
                    _ => DIRECTORY_MODE,
                };
                match self.transform_fs_to_object(&child.node) {
                    Ok(blob_or_tree) => {
                        let hash = blob_or_tree.get_hash().to_owned();
                        let ghost object = model_of(blob_or_tree);
                        assert(hash@ == model_address(object));
                        proof {
                            reveal_strlit("100644");
                            reveal_strlit("40000");
                        }
                        let ghost kept = views(entries@);
                        let entry = TreeEntry {
                            mode: String::from_str(mode),
                            name: child.name.clone(),
                            hash,
                            object: Some(blob_or_tree),
                        };
                        entries.push(entry);
                        assert(views(entries@) == kept.push(entry@));
                        assert(entries_model(entries@) == before.push(entry_for(*child, object)));
                    },
                    Err(e) => {
                        if self.fail_fast {
                            proof {
                                lemma_build_entries_fails(children@, self.fail_fast, i + 1);
                            }
                            return Err(e);
                        }
                    },
                }
            }
            i += 1;
        }
        assert(children@.take(i as int) == children@);
        let ghost found = entries_model(entries@);
        proof {
            lemma_views_shallow(entries@);
        }
        let tree = Tree::new(entries);
        proof {
            if tree.is_ok() {
                let sorted = tree_model(tree.unwrap()).entries;
                lemma_sort_permutes(found);
                lemma_same_entries_keep(found, sorted, |e: EntryModel| child_writable(e));
                lemma_views_shallow(tree.unwrap().entries@);
            }
        }
        tree
    }

    /// The content object of a file with the given bytes.
    fn transform_file_to_blob(&self, content: &Vec<u8>) -> (blob: Result<Blob, StoreError>)
        ensures
            match Blob::built(content@) {
                Ok(v) => blob.is_ok() && blob.unwrap()@ == v && is_address(v.hash),
                Err(e) => blob == Err::<Blob, StoreError>(e),
            },
    {
        Blob::new(content.clone())
    }
}

} // verus!
