use codecrafters_git::error::DecodeError;
use codecrafters_git::error::StoreError;
use codecrafters_git::fs_reader::FsEntry;
use codecrafters_git::fs_reader::FsNode;
use codecrafters_git::objects::blob::Blob;
use codecrafters_git::objects::commit::Commit;
use codecrafters_git::objects::object_base::GitObject;
use codecrafters_git::objects::object_kind::GitObjectKind;
use codecrafters_git::objects::object_manager::create_commit;
use codecrafters_git::objects::object_manager::create_object;
use codecrafters_git::objects::object_manager::read_object;
use codecrafters_git::objects::object_reader::GitObjectReader;
use codecrafters_git::objects::object_writer::GitObjectWriter;
use codecrafters_git::objects::tree::Tree;

const HELLO: &str = "ce013625030ba8dba906f756967f9e9ca394464a";
const EMPTY_TREE: &str = "4b825dc642cb6eb9a060e54bf8d69288fbee4904";

#[test]
fn content_of_hello_has_the_known_address() {
    let blob = Blob::new(b"hello\n".to_vec()).unwrap();
    assert_eq!(blob.base.hash, HELLO);
    assert_eq!(blob.base.hash.len(), 40);
    assert!(blob.base.hash.starts_with("ce013625030ba8dba906f756967f9e9ca394464"));
    assert_eq!(blob.content, "hello\n");
    assert_eq!(blob.compute_object_data(), b"blob 6\0hello\n".to_vec());
}

#[test]
fn snapshot_of_no_entries_has_the_known_address() {
    let tree = Tree::new(Vec::new()).unwrap();
    assert_eq!(tree.base.hash, EMPTY_TREE);
    assert!(tree.entries.is_empty());
    assert_eq!(tree.compute_object_data(), b"tree 0\0".to_vec());
}

#[test]
fn directory_with_one_file_becomes_a_snapshot_with_one_entry() {
    let root = FsNode::Directory(vec![FsEntry {
        name: "hello.txt".to_string(),
        node: FsNode::File(b"hello\n".to_vec()),
    }]);
    let (object, files) = create_object(&root).unwrap();
    let tree = match object {
        GitObjectKind::Tree(tree) => tree,
        other => panic!("expected a snapshot, got {:?}", other),
    };
    assert_eq!(tree.entries.len(), 1);
    assert_eq!(tree.entries[0].name, "hello.txt");
    assert_eq!(tree.entries[0].mode, "100644");
    assert_eq!(tree.entries[0].hash, HELLO);
    assert_eq!(tree.base.hash, "aaa96ced2d9a1c8e72c56b253a0e2fe78393feb7");
    assert_eq!(files.len(), 2);
    assert_eq!(files[0].path.dir, "ce");
    assert_eq!(files[0].path.file, "013625030ba8dba906f756967f9e9ca394464a");
    assert_eq!(files[1].path.dir, "aa");
    assert_eq!(files[1].path.file, "a96ced2d9a1c8e72c56b253a0e2fe78393feb7");
}

#[test]
fn revision_decodes_back_to_its_payload() {
    let (object, files) = create_commit(&EMPTY_TREE.to_string(), &None, &"init".to_string()).unwrap();
    assert_eq!(object.get_hash(), "08da511e15318c59918c588eac20b19135fe7c5c");
    assert_eq!(files.len(), 1);
    // what is stored is the header and the payload
    let mut data = Vec::new();
    std::io::Read::read_to_end(&mut flate2::read::ZlibDecoder::new(&files[0].data[..]), &mut data)
        .unwrap();
    let (header, stored_payload) = GitObjectReader.split_header_and_content(&data).unwrap();
    assert_eq!(header, "commit 89");
    assert_eq!(
        stored_payload,
        b"tree 4b825dc642cb6eb9a060e54bf8d69288fbee4904\nauthor unpseudo <unpseudo@mail.mail>\n\ninit\n"
    );
    let loaded = read_object(object.get_hash(), Some(&files[0].data)).unwrap();
    let commit = match &loaded {
        GitObjectKind::Commit(commit) => commit,
        other => panic!("expected a revision, got {:?}", other),
    };
    assert_eq!(commit.tree_hash, EMPTY_TREE);
    assert_eq!(commit.parent_hash, None);
    assert_eq!(commit.author.name, "unpseudo");
    assert_eq!(commit.author.email, "unpseudo@mail.mail");
    assert_eq!(commit.message, "init");
    // what was loaded is what was made: it shows and encodes as the same payload
    assert_eq!(loaded, object);
    assert_eq!(loaded.get_data(), object.get_data());
    assert_eq!(loaded.compute_object_data(), data);
    assert_eq!(GitObjectWriter.write_object(&loaded).unwrap(), files);
    let payload = object.get_data().unwrap();
    assert_eq!(
        payload,
        "tree 4b825dc642cb6eb9a060e54bf8d69288fbee4904\nauthor unpseudo <unpseudo@mail.mail>\n\ninit\n"
    );
    let mut lines = payload.split('\n');
    assert_eq!(lines.next(), Some("tree 4b825dc642cb6eb9a060e54bf8d69288fbee4904"));
    assert!(lines.next().unwrap().starts_with("author "));
    assert_eq!(lines.next(), Some(""));
    assert_eq!(lines.next(), Some("init"));
    assert_eq!(lines.next(), Some(""));
    assert_eq!(lines.next(), None);
}

#[test]
fn encoding_without_nul_is_corrupt() {
    let reader = GitObjectReader;
    let data = b"blob 6 hello".to_vec();
    assert_eq!(
        reader.check_object(HELLO, &data),
        Err(StoreError::Corrupt(DecodeError::MissingHeader))
    );
    assert_eq!(reader.decode_object(HELLO, &data), Err(DecodeError::MissingHeader));
}

#[test]
fn stored_file_without_nul_is_corrupt() {
    let mut encoder =
        flate2::write::ZlibEncoder::new(Vec::new(), flate2::Compression::default());
    std::io::Write::write_all(&mut encoder, b"no header here").unwrap();
    let file = encoder.finish().unwrap();
    assert_eq!(
        read_object(HELLO, Some(&file)),
        Err(StoreError::Corrupt(DecodeError::MissingHeader))
    );
}

#[test]
fn same_content_twice_has_the_same_address() {
    let first = Blob::new(b"twice".to_vec()).unwrap();
    let second = Blob::new(b"twice".to_vec()).unwrap();
    assert_eq!(first.base.hash, second.base.hash);
    assert_eq!(first.compute_object_data(), second.compute_object_data());
    let a = Commit::new(&EMPTY_TREE.to_string(), &None, &"m".to_string(), None).unwrap();
    let b = Commit::new(&EMPTY_TREE.to_string(), &None, &"m".to_string(), None).unwrap();
    assert_eq!(a.base.hash, b.base.hash);
}
