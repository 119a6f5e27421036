//! The three kinds of object as one type.

use crate::error::DecodeError;
use crate::error::StoreError;
use crate::objects::blob::Blob;
use crate::objects::blob::BlobView;
use crate::objects::commit::Commit;
use crate::objects::commit::CommitView;
use crate::objects::commit::payload_text;
use crate::objects::object_base::GitObject;
use crate::objects::tree::Tree;
use crate::objects::tree::TreeEntry;
use crate::objects::tree::TreeEntryView;
use crate::objects::tree::TreeView;
use vstd::prelude::*;
use vstd::string::*;

verus! {

/// An object of the store: content, a snapshot or a revision.
#[derive(Debug, PartialEq, Eq)]
pub enum GitObjectKind {
    Blob(Blob),
    Tree(Tree),
    Commit(Commit),
}

/// What the store keeps of an object.
pub enum GitObjectKindView {
    Blob(BlobView),
    Tree(TreeView),
    Commit(CommitView),
}

impl View for GitObjectKind {
    type V = GitObjectKindView;

    open spec fn view(&self) -> GitObjectKindView {
        match self {
            GitObjectKind::Blob(blob) => GitObjectKindView::Blob(blob@),
            GitObjectKind::Tree(tree) => GitObjectKindView::Tree(tree@),
            GitObjectKind::Commit(commit) => GitObjectKindView::Commit(commit@),
        }
    }
}

/// An object with what its entries hold of their children.
pub enum ObjectModel {
    Blob(BlobView),
    Tree(TreeModel),
    Commit(CommitView),
}

/// A snapshot with what its entries hold of their children.
pub struct TreeModel {
    pub hash: Seq<char>,
    pub entries: Seq<EntryModel>,
}

/// An entry, and the child that it holds while a snapshot is built.
pub struct EntryModel {
    pub entry: TreeEntryView,
    pub object: Option<ObjectModel>,
}

/// The object with its children.
pub open spec fn model_of(object: GitObjectKind) -> ObjectModel
    decreases object,
{
    match object {
        GitObjectKind::Blob(blob) => ObjectModel::Blob(blob@),
        GitObjectKind::Tree(tree) => ObjectModel::Tree(tree_model(tree)),
        GitObjectKind::Commit(commit) => ObjectModel::Commit(commit@),
    }
}

/// The snapshot with its children.
pub open spec fn tree_model(tree: Tree) -> TreeModel
    decreases tree,
{
    TreeModel { hash: tree.base.hash@, entries: entries_model(tree.entries@) }
}

/// Each entry with its child.
pub open spec fn entries_model(entries: Seq<TreeEntry>) -> Seq<EntryModel>
    decreases entries,
{
    Seq::new(
        entries.len(),
        |i: int|
            if 0 <= i < entries.len() {
                entry_model(entries[i])
            } else {
                arbitrary()
            },
    )
}

/// The entry with its child.
pub open spec fn entry_model(entry: TreeEntry) -> EntryModel
    decreases entry,
{
    EntryModel {
        entry: entry@,
        object: match entry.object {
            Some(object) => Some(model_of(object)),
            None => None,
        },
    }
}

/// The entries without their children.
pub open spec fn shallow(entries: Seq<EntryModel>) -> Seq<TreeEntryView> {
    entries.map_values(|e: EntryModel| e.entry)
}

/// The address that the object carries.
pub open spec fn model_address(object: ObjectModel) -> Seq<char> {
    match object {
        ObjectModel::Blob(blob) => blob.hash,
        ObjectModel::Tree(tree) => tree.hash,
        ObjectModel::Commit(commit) => commit.hash,
    }
}

/// The names of the first `count` entries, a line feed between each two.
pub open spec fn names_text(entries: Seq<TreeEntryView>, count: nat) -> Seq<char>
    decreases count,
{
    if count == 0 {
        Seq::<char>::empty()
    } else if count == 1 {
        entries[0].name
    } else {
        names_text(entries, (count - 1) as nat) + seq!['\n'] + entries[count - 1].name
    }
}

/// What is shown of an object: the text of content, the names of the entries
/// of a snapshot, one to the line, and the payload of a revision.
pub open spec fn data_text(object: GitObjectKindView) -> Seq<char> {
    match object {
        GitObjectKindView::Blob(blob) => blob.content,
        GitObjectKindView::Tree(tree) => names_text(tree.entries, tree.entries.len()),
        GitObjectKindView::Commit(commit) => payload_text(commit),
    }
}

impl GitObjectKind {
    /// Whether the object can be encoded: every child address of a snapshot
    /// is an address.
    pub fn is_encodable(&self) -> (valid: bool)
        ensures
            valid == self.encodable(),
    {
        match self {
            GitObjectKind::Tree(tree) => tree.is_encodable(),
            _ => true,
        }
    }

    /// The text that is shown of the object. It never fails.
    pub fn get_data(&self) -> (data: Result<String, StoreError>)
        ensures
            data.is_ok(),
            data.unwrap()@ == data_text(self@),
    {
        match self {
            GitObjectKind::Blob(blob) => Ok(blob.content.clone()),
            GitObjectKind::Tree(tree) => {
                proof {
                    reveal_strlit("\n");
                }
                let mut text = String::new();
                let mut i: usize = 0;
                while i < tree.entries.len()
                    invariant
                        i <= tree.entries@.len(),
                        "\n"@ == seq!['\n'],
                        text@ == names_text(tree@.entries, i as nat),
                    decreases tree.entries@.len() - i,
                {
                    if i > 0 {
                        text.append("\n");
                    }
                    text.append(tree.entries[i].name.as_str());
                    i += 1;
                }
                Ok(text)
            },
            GitObjectKind::Commit(commit) => Ok(commit.payload_string()),
        }
    }
}

impl GitObject for GitObjectKind {
    open spec fn address(&self) -> Seq<char> {
        match self {
            GitObjectKind::Blob(blob) => blob.address(),
            GitObjectKind::Tree(tree) => tree.address(),
            GitObjectKind::Commit(commit) => commit.address(),
        }
    }

    open spec fn tag(&self) -> Seq<char> {
        match self {
            GitObjectKind::Blob(blob) => blob.tag(),
            GitObjectKind::Tree(tree) => tree.tag(),
            GitObjectKind::Commit(commit) => commit.tag(),
        }
    }

    open spec fn encodable(&self) -> bool {
        match self {
            GitObjectKind::Blob(blob) => blob.encodable(),
            GitObjectKind::Tree(tree) => tree.encodable(),
            GitObjectKind::Commit(commit) => commit.encodable(),
        }
    }

    open spec fn payload(&self) -> Seq<u8> {
        match self {
            GitObjectKind::Blob(blob) => blob.payload(),
            GitObjectKind::Tree(tree) => tree.payload(),
            GitObjectKind::Commit(commit) => commit.payload(),
        }
    }

    /// A payload alone names no kind: nothing decodes to an object of
    /// unknown kind.
    open spec fn decoded(hash: Seq<char>, content: Seq<u8>) -> Result<
        GitObjectKindView,
        DecodeError,
    > {
        Err(DecodeError::UnknownKind)
    }

    fn get_hash(&self) -> (hash: &str) {
        match self {
            GitObjectKind::Blob(blob) => blob.get_hash(),
            GitObjectKind::Tree(tree) => tree.get_hash(),
            GitObjectKind::Commit(commit) => commit.get_hash(),
        }
    }

    fn get_header_prefix(&self) -> (prefix: &'static str) {
        match self {
            GitObjectKind::Blob(blob) => blob.get_header_prefix(),
            GitObjectKind::Tree(tree) => tree.get_header_prefix(),
            GitObjectKind::Commit(commit) => commit.get_header_prefix(),
        }
    }

    fn compute_size(&self) -> (size: usize) {
        match self {
            GitObjectKind::Blob(blob) => blob.compute_size(),
            GitObjectKind::Tree(tree) => tree.compute_size(),
            GitObjectKind::Commit(commit) => commit.compute_size(),
        }
    }

    fn compute_object_data(&self) -> (data: Vec<u8>) {
        match self {
            GitObjectKind::Blob(blob) => blob.compute_object_data(),
            GitObjectKind::Tree(tree) => tree.compute_object_data(),
            GitObjectKind::Commit(commit) => commit.compute_object_data(),
        }
    }

    fn from_object_file(_hash: &str, _content: &[u8]) -> (object: Result<
        GitObjectKind,
        DecodeError,
    >) {
        Err(DecodeError::UnknownKind)
    }
}

} // verus!
