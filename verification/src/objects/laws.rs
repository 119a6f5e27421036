//! What holds of the store as a whole: what was written loads back, the
//! address depends on the fields alone, and snapshots are sorted whatever
//! order their entries were found in.

use crate::error::DecodeError;
use crate::error::StoreError;
use crate::fs_reader::FsEntry;
use crate::fs_reader::FsNode;
use crate::objects::blob::Blob;
use crate::objects::blob::BlobView;
use crate::objects::blob::lemma_blob_round_trip;
use crate::objects::blob;
use crate::objects::commit::Commit;
use crate::objects::commit::CommitAuthor;
use crate::objects::commit::CommitView;
use crate::objects::commit::lemma_commit_round_trip;
use crate::objects::commit::payload_text;
use crate::objects::commit::plain_fields;
use crate::objects::commit;
use crate::objects::object_base::GitObject;
use crate::objects::object_base::canonical;
use crate::objects::object_kind::EntryModel;
use crate::objects::object_kind::GitObjectKindView;
use crate::objects::object_kind::ObjectModel;
use crate::objects::object_kind::model_address;
use crate::objects::object_kind::shallow;
use crate::objects::object_reader::checked_data;
use crate::objects::object_reader::lemma_decode_canonical;
use crate::objects::object_reader::load;
use crate::objects::object_transformer::build;
use crate::objects::object_transformer::build_entries;
use crate::objects::object_writer::StoredView;
use crate::objects::object_writer::left_to_write;
use crate::objects::object_writer::plan;
use crate::objects::order::insert_by_name;
use crate::objects::order::lemma_lex_le_antisymmetric;
use crate::objects::order::lemma_same_entries_keep;
use crate::objects::order::lemma_sort_permutes;
use crate::objects::order::lemma_sort_sorted;
use crate::objects::order::lex_le;
use crate::objects::order::sort_by_name;
use crate::objects::order::sort_key;
use crate::objects::order::sorted_by_name;
use crate::objects::text::position;
use crate::objects::tree::Tree;
use crate::objects::tree::TreeView;
use crate::objects::tree::addresses_valid;
use crate::objects::tree::all_plain;
use crate::objects::tree::entries_bytes;
use crate::objects::tree::lemma_entries_round_trip;
use crate::objects::tree::lemma_sort_keeps_valid;
use crate::objects::tree::names_valid;
use crate::objects::tree::plain_entry;
use crate::objects::tree::valid_entry;
use crate::objects::tree::valid_mode;
use crate::objects::tree::valid_name;
use crate::objects::tree;
use crate::objects::utils::MAX_DIGEST_INPUT;
use crate::objects::utils::address_of;
use crate::objects::utils::is_address;
use vstd::prelude::*;
use vstd::seq_lib::lemma_multiset_commutative;
use vstd::utf8::*;

verus! {

/// The canonical encoding of an object. It depends on the fields alone: not
/// on the address that the object carries, and not on the children that the
/// entries of a snapshot hold.
pub open spec fn encoding(object: ObjectModel) -> Seq<u8> {
    match object {
        ObjectModel::Blob(blob) => canonical(blob::HEADER_PREFIX@, encode_utf8(blob.content)),
        ObjectModel::Tree(tree) => canonical(
            tree::HEADER_PREFIX@,
            entries_bytes(shallow(tree.entries)),
        ),
        ObjectModel::Commit(commit) => canonical(
            commit::HEADER_PREFIX@,
            encode_utf8(payload_text(commit)),
        ),
    }
}

/// The object carries the address of its encoding, which SHA-1 can digest.
pub open spec fn sealed(object: ObjectModel) -> bool {
    &&& is_address(model_address(object))
    &&& model_address(object) == address_of(encoding(object))
    &&& encoding(object).len() <= MAX_DIGEST_INPUT
}

/// The fields are such that decoding recovers them.
pub open spec fn plain(object: ObjectModel) -> bool {
    match object {
        ObjectModel::Blob(blob) => true,
        ObjectModel::Tree(tree) => all_plain(shallow(tree.entries)),
        ObjectModel::Commit(commit) => plain_fields(commit),
    }
}

/// What the store gives back of an object: the object as it is, without the
/// children that the entries of a snapshot hold.
pub open spec fn as_stored(object: ObjectModel) -> GitObjectKindView {
    match object {
        ObjectModel::Blob(blob) => GitObjectKindView::Blob(blob),
        ObjectModel::Tree(tree) => GitObjectKindView::Tree(
            TreeView { hash: tree.hash, entries: shallow(tree.entries) },
        ),
        ObjectModel::Commit(commit) => GitObjectKindView::Commit(commit),
    }
}

/// The encoding of a sealed object with plain fields decodes to the object,
/// and the address it carries is the address of what was decoded.
pub proof fn lemma_encoding_round_trip(object: ObjectModel)
    requires
        sealed(object),
        plain(object),
    ensures
        checked_data(model_address(object), encoding(object)) == Ok::<
            GitObjectKindView,
            StoreError,
        >(as_stored(object)),
{
    reveal_strlit("blob");
    reveal_strlit("tree");
    reveal_strlit("commit");
    let hash = model_address(object);
    match object {
        ObjectModel::Blob(blob) => {
            lemma_decode_canonical(blob::HEADER_PREFIX@, hash, encode_utf8(blob.content));
            lemma_blob_round_trip(blob.content, hash);
        },
        ObjectModel::Tree(tree) => {
            lemma_decode_canonical(
                tree::HEADER_PREFIX@,
                hash,
                entries_bytes(shallow(tree.entries)),
            );
            assert(tree::HEADER_PREFIX@ != blob::HEADER_PREFIX@) by {
                assert(tree::HEADER_PREFIX@[0] != blob::HEADER_PREFIX@[0]);
            }
            assert forall|i: int| 0 <= i < shallow(tree.entries).len() implies plain_entry(
                #[trigger] shallow(tree.entries)[i],
            ) by {
                assert(shallow(tree.entries)[i] == tree.entries[i].entry);
            }
            lemma_entries_round_trip(shallow(tree.entries));
        },
        ObjectModel::Commit(commit) => {
            lemma_decode_canonical(
                commit::HEADER_PREFIX@,
                hash,
                encode_utf8(payload_text(commit)),
            );
            assert(commit::HEADER_PREFIX@ != blob::HEADER_PREFIX@) by {
                assert(commit::HEADER_PREFIX@[0] != blob::HEADER_PREFIX@[0]);
            }
            assert(commit::HEADER_PREFIX@ != tree::HEADER_PREFIX@) by {
                assert(commit::HEADER_PREFIX@[0] != tree::HEADER_PREFIX@[0]);
            }
            lemma_commit_round_trip(commit, hash);
        },
    }
}

/// What was written loads back: the last file that a write of a sealed
/// object with plain fields makes stands at the place of the object's
/// address, and it loads as the object.
pub proof fn lemma_store_round_trip(object: ObjectModel)
    requires
        plan(object).is_ok(),
        sealed(object),
        plain(object),
    ensures
        plan(object).unwrap().len() > 0,
        plan(object).unwrap().last().dir == model_address(object).take(2),
        plan(object).unwrap().last().file == model_address(object).skip(2),
        load(model_address(object), Some(plan(object).unwrap().last().data)) == Ok::<
            GitObjectKindView,
            StoreError,
        >(as_stored(object)),
{
    lemma_encoding_round_trip(object);
}

/// Two objects have the same fields: they are of one kind, and differ at
/// most in the address they carry and in the children their entries hold.
pub open spec fn same_fields(a: ObjectModel, b: ObjectModel) -> bool {
    match (a, b) {
        (ObjectModel::Blob(x), ObjectModel::Blob(y)) => x.content == y.content,
        (ObjectModel::Tree(x), ObjectModel::Tree(y)) => shallow(x.entries) == shallow(y.entries),
        (ObjectModel::Commit(x), ObjectModel::Commit(y)) => x == (CommitView { hash: x.hash, ..y }),
        _ => false,
    }
}

/// Determinism: two objects with the same fields have the same encoding,
/// and so the same address.
pub proof fn lemma_encoding_determined(a: ObjectModel, b: ObjectModel)
    requires
        same_fields(a, b),
    ensures
        encoding(a) == encoding(b),
        address_of(encoding(a)) == address_of(encoding(b)),
{
}

/// Every snapshot in the object, at any depth, has its entries in the order
/// of their names.
pub open spec fn all_sorted(object: ObjectModel) -> bool
    decreases object,
{
    match object {
        ObjectModel::Tree(tree) => {
            &&& sorted_by_name(tree.entries)
            &&& forall|i: int|
                0 <= i < tree.entries.len() ==> (#[trigger] tree.entries[i].object matches Some(
                    child,
                ) ==> all_sorted(child))
        },
        _ => true,
    }
}

/// The children that the entries hold are sorted at every depth.
pub open spec fn children_sorted(entries: Seq<EntryModel>) -> bool {
    forall|i: int|
        0 <= i < entries.len() ==> (#[trigger] entries[i].object matches Some(child)
            ==> all_sorted(child))
}

/// Sort invariant: every snapshot that the builder makes, at any depth, has
/// its entries in the order of their names.
pub proof fn lemma_build_sorted(node: FsNode, fail_fast: bool)
    ensures
        build(node, fail_fast) matches Ok(object) ==> all_sorted(object),
    decreases node,
{
    match node {
        FsNode::Directory(children) => {
            lemma_build_entries_sorted(children@, fail_fast);
            if let Ok(entries) = build_entries(children@, fail_fast) {
                if let Ok(tree) = Tree::built(entries) {
                    broadcast use vstd::seq_lib::group_to_multiset_ensures;

                    lemma_sort_sorted(entries);
                    lemma_sort_permutes(entries);
                    assert forall|i: int| 0 <= i < tree.entries.len() implies (
                    #[trigger] tree.entries[i].object matches Some(child) ==> all_sorted(child)) by {
                        let entry = tree.entries[i];
                        assert(tree.entries.to_multiset().count(entry) > 0);
                        let k = choose|k: int| 0 <= k < entries.len() && entries[k] == entry;
                        assert(entries[k].object == entry.object);
                    }
                }
            }
        },
        _ => {},
    }
}

/// The children of the entries that the builder makes are sorted at every depth.
pub proof fn lemma_build_entries_sorted(children: Seq<FsEntry>, fail_fast: bool)
    ensures
        build_entries(children, fail_fast) matches Ok(entries) ==> children_sorted(entries),
    decreases children,
{
    if children.len() != 0 {
        lemma_build_entries_sorted(children.drop_last(), fail_fast);
        lemma_build_sorted(children.last().node, fail_fast);
        if let Ok(before) = build_entries(children.drop_last(), fail_fast) {
            if let Ok(entries) = build_entries(children, fail_fast) {
                assert forall|i: int| 0 <= i < entries.len() implies (
                #[trigger] entries[i].object matches Some(child) ==> all_sorted(child)) by {
                    if i < before.len() {
                        assert(entries[i] == before[i]);
                    }
                }
            }
        }
    }
}

/// No two of the entries have one name.
pub open spec fn distinct_names(entries: Seq<EntryModel>) -> bool {
    forall|i: int, j: int|
        0 <= i < j < entries.len() ==> (#[trigger] entries[i]).entry.name != (
        #[trigger] entries[j]).entry.name
}

/// Two sorted listings of the same entries, of which no two have one name,
/// are one listing.
pub proof fn lemma_sorted_unique(x: Seq<EntryModel>, y: Seq<EntryModel>)
    requires
        sorted_by_name(x),
        sorted_by_name(y),
        x.to_multiset() == y.to_multiset(),
        distinct_names(x),
    ensures
        x == y,
    decreases x.len(),
{
    broadcast use vstd::seq_lib::group_to_multiset_ensures;
    broadcast use vstd::multiset::group_multiset_axioms;

    assert(x.len() == x.to_multiset().len() && y.len() == y.to_multiset().len());
    if x.len() != 0 {
        assert(y.to_multiset().count(x[0]) > 0);
        assert(y.contains(x[0]));
        let i = choose|i: int| 0 <= i < y.len() && y[i] == x[0];
        assert(x.to_multiset().count(y[0]) > 0);
        assert(x.contains(y[0]));
        let j = choose|j: int| 0 <= j < x.len() && x[j] == y[0];
        if j != 0 {
            assert(lex_le(sort_key(x[0]), sort_key(x[j])));
            if i != 0 {
                assert(lex_le(sort_key(y[0]), sort_key(y[i])));
            }
            lemma_lex_le_antisymmetric(sort_key(x[0]), sort_key(x[j]));
            encode_utf8_decode_utf8(x[0].entry.name);
            encode_utf8_decode_utf8(x[j].entry.name);
            assert(false);
        }
        assert(x[0] == y[0]);
        let xr = x.drop_first();
        let yr = y.drop_first();
        assert(xr == x.remove(0));
        assert(yr == y.remove(0));
        assert(sorted_by_name(xr)) by {
            assert forall|a: int, b: int| 0 <= a < b < xr.len() implies lex_le(
                sort_key(#[trigger] xr[a]),
                sort_key(#[trigger] xr[b]),
            ) by {
                assert(lex_le(sort_key(x[a + 1]), sort_key(x[b + 1])));
            }
        }
        assert(sorted_by_name(yr)) by {
            assert forall|a: int, b: int| 0 <= a < b < yr.len() implies lex_le(
                sort_key(#[trigger] yr[a]),
                sort_key(#[trigger] yr[b]),
            ) by {
                assert(lex_le(sort_key(y[a + 1]), sort_key(y[b + 1])));
            }
        }
        assert(distinct_names(xr)) by {
            assert forall|a: int, b: int| 0 <= a < b < xr.len() implies (
            #[trigger] xr[a]).entry.name != (#[trigger] xr[b]).entry.name by {
                assert(x[a + 1].entry.name != x[b + 1].entry.name);
            }
        }
        lemma_sorted_unique(xr, yr);
        assert(x == seq![x[0]] + xr);
        assert(y == seq![y[0]] + yr);
    }
}

/// Sort invariant: the order that entries were found in does not matter. Two
/// listings of the same entries, of which no two have one name, make the
/// same snapshot, with the same address.
pub proof fn lemma_order_insensitive(a: Seq<EntryModel>, b: Seq<EntryModel>)
    requires
        a.to_multiset() == b.to_multiset(),
        distinct_names(a),
    ensures
        sort_by_name(a) == sort_by_name(b),
        Tree::built(a) == Tree::built(b),
{
    broadcast use vstd::seq_lib::group_to_multiset_ensures;

    lemma_sort_sorted(a);
    lemma_sort_sorted(b);
    lemma_sort_permutes(a);
    lemma_sort_permutes(b);
    let x = sort_by_name(a);
    assert(distinct_names(x)) by {
        assert forall|i: int, j: int| 0 <= i < j < x.len() implies (#[trigger] x[i]).entry.name != (
        #[trigger] x[j]).entry.name by {
            lemma_distinct_after_sort(a, i, j);
        }
    }
    lemma_sorted_unique(x, sort_by_name(b));
    lemma_same_validity(a, b);
    lemma_same_validity(b, a);
}

/// Two entries of a sorted listing have one name only where two of the
/// entries that were sorted have.
proof fn lemma_distinct_after_sort(a: Seq<EntryModel>, i: int, j: int)
    requires
        distinct_names(a),
        0 <= i < j < sort_by_name(a).len(),
    ensures
        sort_by_name(a)[i].entry.name != sort_by_name(a)[j].entry.name,
{
    broadcast use vstd::seq_lib::group_to_multiset_ensures;
    broadcast use vstd::multiset::group_multiset_axioms;

    let x = sort_by_name(a);
    lemma_sort_permutes(a);
    assert(a.no_duplicates()) by {
        assert forall|p: int, q: int| 0 <= p < a.len() && 0 <= q < a.len() && p != q implies a[p]
            != a[q] by {
            if p < q {
                assert(a[p].entry.name != a[q].entry.name);
            } else {
                assert(a[q].entry.name != a[p].entry.name);
            }
        }
    }
    a.lemma_multiset_has_no_duplicates();
    x.lemma_multiset_has_no_duplicates_conv();
    assert(x[i] != x[j]);
    if x[i].entry.name == x[j].entry.name {
        assert(a.to_multiset().count(x[i]) > 0);
        assert(a.contains(x[i]));
        let p = choose|p: int| 0 <= p < a.len() && a[p] == x[i];
        assert(a.to_multiset().count(x[j]) > 0);
        assert(a.contains(x[j]));
        let q = choose|q: int| 0 <= q < a.len() && a[q] == x[j];
        if p < q {
            assert(a[p].entry.name != a[q].entry.name);
        } else {
            assert(a[q].entry.name != a[p].entry.name);
        }
    }
}

/// Where the entries of a listing have addresses, modes and names, those of
/// every listing of the same entries have.
proof fn lemma_same_validity(a: Seq<EntryModel>, b: Seq<EntryModel>)
    requires
        a.to_multiset() == b.to_multiset(),
    ensures
        addresses_valid(shallow(a)) ==> addresses_valid(shallow(b)),
        addresses_valid(shallow(a)) && names_valid(shallow(a)) ==> names_valid(shallow(b)),
{
    if addresses_valid(shallow(a)) {
        assert forall|i: int| 0 <= i < a.len() implies is_address((#[trigger] a[i]).entry.hash) by {
            assert(shallow(a)[i] == a[i].entry);
        }
        lemma_same_entries_keep(a, b, |e: EntryModel| is_address(e.entry.hash));
        assert forall|i: int| 0 <= i < shallow(b).len() implies is_address(
            (#[trigger] shallow(b)[i]).hash,
        ) by {
            assert(is_address(b[i].entry.hash));
        }
        if names_valid(shallow(a)) {
            assert forall|i: int| 0 <= i < a.len() implies valid_entry(#[trigger] a[i]) by {
                assert(shallow(a)[i] == a[i].entry);
            }
            lemma_same_entries_keep(a, b, |e: EntryModel| valid_entry(e));
            assert forall|i: int| 0 <= i < shallow(b).len() implies valid_mode(
                (#[trigger] shallow(b)[i]).mode,
            ) && valid_name(shallow(b)[i].name) by {
                assert(valid_entry(b[i]));
            }
        }
    }
}

/// The content object that `Blob::new` makes carries the address of its
/// encoding.
pub proof fn lemma_blob_sealed(content: Seq<u8>)
    requires
        Blob::built(content).is_ok(),
        is_address(Blob::built(content).unwrap().hash),
    ensures
        sealed(ObjectModel::Blob(Blob::built(content).unwrap())),
{
    decode_utf8_encode_utf8(content);
}

/// The snapshot that `Tree::new` makes carries the address of its encoding.
pub proof fn lemma_tree_sealed(entries: Seq<EntryModel>)
    requires
        Tree::built(entries).is_ok(),
        is_address(Tree::built(entries).unwrap().hash),
    ensures
        sealed(ObjectModel::Tree(Tree::built(entries).unwrap())),
{
}

/// The revision that `Commit::new` makes carries the address of its encoding.
pub proof fn lemma_commit_sealed(
    tree_hash: Seq<char>,
    parent_hash: Option<Seq<char>>,
    message: Seq<char>,
    author: Option<CommitAuthor>,
)
    requires
        Commit::built(tree_hash, parent_hash, message, author).is_ok(),
        is_address(Commit::built(tree_hash, parent_hash, message, author).unwrap().hash),
    ensures
        sealed(ObjectModel::Commit(Commit::built(tree_hash, parent_hash, message, author).unwrap())),
{
}

/// What the builder makes carries the address of its encoding.
pub proof fn lemma_built_sealed(node: FsNode, fail_fast: bool)
    requires
        build(node, fail_fast).is_ok(),
        is_address(model_address(build(node, fail_fast).unwrap())),
    ensures
        sealed(build(node, fail_fast).unwrap()),
{
    match node {
        FsNode::File(content) => {
            lemma_blob_sealed(content@);
        },
        FsNode::Directory(children) => {
            lemma_tree_sealed(build_entries(children@, fail_fast).unwrap());
        },
        FsNode::Unreadable => {},
    }
}

/// What the builder makes has plain fields.
pub proof fn lemma_built_plain(node: FsNode, fail_fast: bool)
    requires
        build(node, fail_fast).is_ok(),
    ensures
        plain(build(node, fail_fast).unwrap()),
{
    if let FsNode::Directory(children) = node {
        lemma_sort_keeps_valid(build_entries(children@, fail_fast).unwrap());
    }
}

/// What the builder makes, the writer writes and the reader loads: the last
/// file that a write of a built object makes loads as that object.
pub proof fn lemma_built_round_trip(node: FsNode, fail_fast: bool)
    requires
        build(node, fail_fast).is_ok(),
        is_address(model_address(build(node, fail_fast).unwrap())),
        plan(build(node, fail_fast).unwrap()).is_ok(),
    ensures
        ({
            let object = build(node, fail_fast).unwrap();
            let files = plan(object).unwrap();
            &&& files.len() > 0
            &&& load(model_address(object), Some(files.last().data)) == Ok::<
                GitObjectKindView,
                StoreError,
            >(as_stored(object))
        }),
{
    lemma_built_sealed(node, fail_fast);
    lemma_built_plain(node, fail_fast);
    lemma_store_round_trip(build(node, fail_fast).unwrap());
}

/// Determinism: `Blob::new` makes of the same bytes the same content object
/// under the same address, or fails in the same way.
pub proof fn lemma_blob_determined(a: Seq<u8>, b: Seq<u8>)
    requires
        a == b,
    ensures
        Blob::built(a) == Blob::built(b),
{
}

/// Determinism: `Commit::new` makes of the same arguments the same revision
/// under the same address, or fails in the same way.
pub proof fn lemma_commit_determined(
    tree_hash: Seq<char>,
    parent_hash: Option<Seq<char>>,
    message: Seq<char>,
    first: Option<CommitAuthor>,
    second: Option<CommitAuthor>,
)
    requires
        first matches Some(a) ==> second matches Some(b) && a.name@ == b.name@ && a.email@
            == b.email@,
        first.is_none() ==> second.is_none(),
    ensures
        Commit::built(tree_hash, parent_hash, message, first) == Commit::built(
            tree_hash,
            parent_hash,
            message,
            second,
        ),
{
}

/// Entries that differ in nothing but the children they hold are inserted
/// at the same place.
proof fn lemma_insert_shallow(x: Seq<EntryModel>, y: Seq<EntryModel>, e: EntryModel, f: EntryModel)
    requires
        shallow(x) == shallow(y),
        e.entry == f.entry,
    ensures
        shallow(insert_by_name(x, e)) == shallow(insert_by_name(y, f)),
    decreases x.len(),
{
    assert(x.len() == shallow(x).len() && y.len() == shallow(y).len());
    if x.len() != 0 {
        assert(x[0].entry == shallow(x)[0] && y[0].entry == shallow(y)[0]);
        if !lex_le(sort_key(e), sort_key(x[0])) {
            assert(shallow(x.drop_first()) == shallow(x).drop_first());
            assert(shallow(y.drop_first()) == shallow(y).drop_first());
            lemma_insert_shallow(x.drop_first(), y.drop_first(), e, f);
            assert(shallow(insert_by_name(y, f)) == seq![y[0].entry] + shallow(
                insert_by_name(y.drop_first(), f),
            ));
        } else {
            assert(shallow(insert_by_name(y, f)) == seq![f.entry] + shallow(y));
        }
    } else {
        assert(shallow(insert_by_name(y, f)) == seq![f.entry]);
    }
}

/// Sorting looks at no child: listings that differ in nothing but the
/// children that their entries hold are sorted alike.
pub proof fn lemma_sort_shallow(a: Seq<EntryModel>, b: Seq<EntryModel>)
    requires
        shallow(a) == shallow(b),
    ensures
        shallow(sort_by_name(a)) == shallow(sort_by_name(b)),
    decreases a.len(),
{
    assert(a.len() == shallow(a).len() && b.len() == shallow(b).len());
    if a.len() != 0 {
        assert(a[0].entry == shallow(a)[0] && b[0].entry == shallow(b)[0]);
        assert(shallow(a.drop_first()) == shallow(a).drop_first());
        assert(shallow(b.drop_first()) == shallow(b).drop_first());
        lemma_sort_shallow(a.drop_first(), b.drop_first());
        lemma_insert_shallow(
            sort_by_name(a.drop_first()),
            sort_by_name(b.drop_first()),
            a[0],
            b[0],
        );
    }
}

/// Determinism: the address that `Tree::new` gives depends on the mode, the
/// name and the child address of the entries alone, never on the children
/// that the entries hold.
pub proof fn lemma_tree_determined(a: Seq<EntryModel>, b: Seq<EntryModel>)
    requires
        shallow(a) == shallow(b),
    ensures
        match (Tree::built(a), Tree::built(b)) {
            (Ok(x), Ok(y)) => x.hash == y.hash && shallow(x.entries) == shallow(y.entries),
            (Err(e), Err(f)) => e == f,
            _ => false,
        },
{
    lemma_sort_shallow(a, b);
}

/// Decoding undoes encoding, for a content object as it stands in memory:
/// what follows the first NUL of its encoding is its payload, and the
/// payload decodes to the object.
pub proof fn lemma_blob_object_round_trip(blob: Blob)
    ensures
        ({
            let data = canonical(blob.tag(), blob.payload());
            &&& position(data, 0u8).is_some()
            &&& data.skip(position(data, 0u8).unwrap() + 1) == blob.payload()
            &&& Blob::decoded(blob.address(), blob.payload()) == Ok::<BlobView, DecodeError>(blob@)
        }),
{
    reveal_strlit("blob");
    lemma_decode_canonical(blob.tag(), blob.address(), blob.payload());
    lemma_blob_round_trip(blob@.content, blob.address());
}

/// What the builder makes of children in a row is what it makes of the
/// first of them and then of the others.
pub proof fn lemma_build_entries_concat(a: Seq<FsEntry>, b: Seq<FsEntry>)
    ensures
        build_entries(a + b, false).is_ok(),
        build_entries(a + b, false).unwrap() == build_entries(a, false).unwrap() + build_entries(
            b,
            false,
        ).unwrap(),
    decreases b.len(),
{
    if b.len() == 0 {
        lemma_build_entries_ok(a);
    } else {
        assert((a + b).drop_last() == a + b.drop_last());
        lemma_build_entries_concat(a, b.drop_last());
        lemma_build_entries_ok(b.drop_last());
    }
}

/// A builder that leaves out what it cannot build always makes entries.
pub proof fn lemma_build_entries_ok(children: Seq<FsEntry>)
    ensures
        build_entries(children, false).is_ok(),
    decreases children.len(),
{
    if children.len() != 0 {
        lemma_build_entries_ok(children.drop_last());
    }
}

/// The order of a listing does not matter to the entries: of the same
/// children in another order, a builder that leaves out what it cannot
/// build makes the same entries, in another order.
pub proof fn lemma_build_entries_permuted(a: Seq<FsEntry>, b: Seq<FsEntry>)
    requires
        a.to_multiset() == b.to_multiset(),
    ensures
        build_entries(a, false).unwrap().to_multiset() == build_entries(
            b,
            false,
        ).unwrap().to_multiset(),
    decreases a.len(),
{
    broadcast use vstd::seq_lib::group_to_multiset_ensures;
    broadcast use vstd::multiset::group_multiset_axioms;

    assert(a.len() == a.to_multiset().len() && b.len() == b.to_multiset().len());
    if a.len() != 0 {
        let last = a.last();
        assert(a == a.drop_last().push(last));
        assert(b.to_multiset().count(last) > 0);
        let k = choose|k: int| 0 <= k < b.len() && b[k] == last;
        let front = b.take(k);
        let back = b.skip(k + 1);
        let others = front + back;
        assert(others == b.remove(k));
        assert(a.drop_last().to_multiset() == others.to_multiset());
        lemma_build_entries_permuted(a.drop_last(), others);
        // the entries of `b` are those of what stands before `last`, of
        // `last`, and of what stands after it
        let one = seq![last];
        assert(b == (front + one) + back);
        lemma_build_entries_concat(front + one, back);
        lemma_build_entries_concat(front, one);
        lemma_build_entries_concat(front, back);
        lemma_build_entries_concat(a.drop_last(), one);
        assert(a == a.drop_last() + one);
        let made_front = build_entries(front, false).unwrap();
        let made_one = build_entries(one, false).unwrap();
        let made_back = build_entries(back, false).unwrap();
        let made_rest = build_entries(a.drop_last(), false).unwrap();
        lemma_multiset_commutative(made_front + made_one, made_back);
        lemma_multiset_commutative(made_front, made_one);
        lemma_multiset_commutative(made_front, made_back);
        lemma_multiset_commutative(made_rest, made_one);
    } else {
        assert(a == b);
    }
}

/// Sort invariant: the order that the children of a directory are listed in
/// does not matter. Of the same children in another order, with no two
/// entries of one name, the builder makes the same snapshot with the same
/// address.
pub proof fn lemma_build_order_insensitive(a: Seq<FsEntry>, b: Seq<FsEntry>)
    requires
        a.to_multiset() == b.to_multiset(),
        distinct_names(build_entries(a, false).unwrap()),
    ensures
        Tree::built(build_entries(a, false).unwrap()) == Tree::built(
            build_entries(b, false).unwrap(),
        ),
{
    lemma_build_entries_permuted(a, b);
    lemma_order_insensitive(build_entries(a, false).unwrap(), build_entries(b, false).unwrap());
}

/// What a store holds after a caller wrote `file` as `write_if_absent` has
/// it: the store is a map from places to bytes; a place that holds a file is
/// left as it is, and a place that holds none gets the file.
pub open spec fn store_after(
    store: Map<(Seq<char>, Seq<char>), Seq<u8>>,
    file: StoredView,
) -> Map<(Seq<char>, Seq<char>), Seq<u8>> {
    match left_to_write(file, store.contains_key((file.dir, file.file))) {
        None => store,
        Some(left) => store.insert((left.dir, left.file), left.data),
    }
}

/// What a store holds after a caller wrote the files in their order.
pub open spec fn store_after_all(
    store: Map<(Seq<char>, Seq<char>), Seq<u8>>,
    files: Seq<StoredView>,
) -> Map<(Seq<char>, Seq<char>), Seq<u8>>
    decreases files.len(),
{
    if files.len() == 0 {
        store
    } else {
        store_after(store_after_all(store, files.drop_last()), files.last())
    }
}

/// Idempotent store: writing never changes what a place holds. After any
/// files were written, every place that held a file holds the bytes it
/// held, so that what is read from it is what was read before; and where
/// the place of a file was held, writing that file changes nothing at all.
pub proof fn lemma_idempotent_store(
    store: Map<(Seq<char>, Seq<char>), Seq<u8>>,
    files: Seq<StoredView>,
)
    ensures
        forall|place: (Seq<char>, Seq<char>)| #[trigger]
            store.contains_key(place) ==> store_after_all(store, files).contains_key(place)
                && store_after_all(store, files)[place] == store[place],
        files.len() == 1 && store.contains_key((files[0].dir, files[0].file)) ==> store_after_all(
            store,
            files,
        ) == store,
    decreases files.len(),
{
    if files.len() != 0 {
        lemma_idempotent_store(store, files.drop_last());
        if files.len() == 1 {
            assert(store_after_all(store, files.drop_last()) == store);
        }
    }
}

} // verus!
