use codecrafters_git::error::DecodeError;
use codecrafters_git::error::StoreError;
use codecrafters_git::objects::blob::Blob;
use codecrafters_git::objects::commit::Commit;
use codecrafters_git::objects::object_base::GitObject;
use codecrafters_git::objects::object_base::GitObjectBase;
use codecrafters_git::objects::object_kind::GitObjectKind;
use codecrafters_git::objects::object_manager::file_to_hash;
use codecrafters_git::objects::object_manager::read_object;
use codecrafters_git::objects::object_reader::GitObjectReader;
use codecrafters_git::objects::object_writer::GitObjectWriter;
use codecrafters_git::objects::object_writer::StoredObject;
use codecrafters_git::objects::object_writer::pack;
use codecrafters_git::objects::tree::Tree;
use codecrafters_git::objects::tree::TreeEntry;
use codecrafters_git::objects::utils::ObjectPath;
use codecrafters_git::objects::utils::compute_sha1_from_bytes;

const HELLO: &str = "ce013625030ba8dba906f756967f9e9ca394464a";
const EMPTY_TREE: &str = "4b825dc642cb6eb9a060e54bf8d69288fbee4904";

fn compress(data: &[u8]) -> Vec<u8> {
    let mut encoder =
        flate2::write::ZlibEncoder::new(Vec::new(), flate2::Compression::default());
    std::io::Write::write_all(&mut encoder, data).unwrap();
    encoder.finish().unwrap()
}

fn decompress(file: &[u8]) -> Vec<u8> {
    let mut out = Vec::new();
    std::io::Read::read_to_end(&mut flate2::read::ZlibDecoder::new(file), &mut out).unwrap();
    out
}

#[test]
fn load_rejects_what_is_no_address() {
    let file = compress(b"blob 6\0hello\n");
    for hash in [
        "",
        "ce01",
        "ce013625030ba8dba906f756967f9e9ca394464",
        "ce013625030ba8dba906f756967f9e9ca394464a0",
        "CE013625030BA8DBA906F756967F9E9CA394464A",
        "xe013625030ba8dba906f756967f9e9ca394464a",
        "ce013625030ba8dba906f756967f9e9ca394464\u{e9}",
    ] {
        assert_eq!(read_object(hash, Some(&file)), Err(StoreError::InvalidAddress));
        assert_eq!(read_object(hash, None), Err(StoreError::InvalidAddress));
    }
}

#[test]
fn load_finds_nothing_where_no_file_is() {
    assert_eq!(read_object(HELLO, None), Err(StoreError::NotFound));
    assert_eq!(GitObjectReader.read_object(EMPTY_TREE, None), Err(StoreError::NotFound));
}

#[test]
fn load_decompresses_and_decodes() {
    let file = compress(b"blob 6\0hello\n");
    let object = read_object(HELLO, Some(&file)).unwrap();
    assert_eq!(object.get_hash(), HELLO);
    assert_eq!(object.get_data(), Ok("hello\n".to_string()));
    assert!(matches!(object, GitObjectKind::Blob(_)));
    let none = read_object(EMPTY_TREE, Some(&compress(b"tree 0\0"))).unwrap();
    assert!(matches!(none, GitObjectKind::Tree(_)));
}

#[test]
fn load_rejects_what_is_no_zlib_stream() {
    assert_eq!(
        read_object(HELLO, Some(b"blob 6\0hello\n")),
        Err(StoreError::Corrupt(DecodeError::Compression))
    );
    let file = compress(b"blob 6\0hello\n");
    assert_eq!(
        read_object(HELLO, Some(&file[..file.len() - 6])),
        Err(StoreError::Corrupt(DecodeError::Compression))
    );
    assert_eq!(read_object(HELLO, Some(b"")), Err(StoreError::Corrupt(DecodeError::Compression)));
}

#[test]
fn load_rejects_an_address_that_is_not_the_digest() {
    let file = compress(b"blob 6\0hello\n");
    assert_eq!(
        read_object(EMPTY_TREE, Some(&file)),
        Err(StoreError::Corrupt(DecodeError::AddressMismatch))
    );
    let reader = GitObjectReader;
    assert_eq!(
        reader.check_object(EMPTY_TREE, b"blob 6\0hello\n"),
        Err(StoreError::Corrupt(DecodeError::AddressMismatch))
    );
    assert!(reader.check_object(HELLO, b"blob 6\0hello\n").is_ok());
    // decoding alone does not look at the address
    assert!(reader.decode_object(EMPTY_TREE, b"blob 6\0hello\n").is_ok());
}

#[test]
fn load_rejects_a_header_that_names_no_known_kind() {
    let reader = GitObjectReader;
    assert_eq!(reader.decode_object(HELLO, b"tag 1\0x"), Err(DecodeError::UnknownKind));
    assert_eq!(reader.decode_object(HELLO, b"Blob 1\0x"), Err(DecodeError::UnknownKind));
    assert_eq!(reader.decode_object(HELLO, b"\0x"), Err(DecodeError::MissingHeader));
    assert_eq!(reader.decode_object(HELLO, b"  \0x"), Err(DecodeError::MissingHeader));
    assert_eq!(reader.decode_object(HELLO, b"blob \xff\0x"), Err(DecodeError::InvalidEncoding));
    assert_eq!(reader.decode_object(HELLO, b"blob 1\0\xff"), Err(DecodeError::InvalidEncoding));
    assert_eq!(reader.decode_object(HELLO, b"tree 1\0x"), Err(DecodeError::Truncated));
    assert_eq!(reader.decode_object(HELLO, b"commit 1\0x"), Err(DecodeError::Truncated));
    let data = b"commit 7\0bogus x\n";
    let hash = compute_sha1_from_bytes(data);
    assert_eq!(
        read_object(&hash, Some(&compress(data))),
        Err(StoreError::Corrupt(DecodeError::UnknownField))
    );
}

#[test]
fn header_is_split_at_the_first_nul() {
    let reader = GitObjectReader;
    assert_eq!(
        reader.split_header_and_content(b"blob 3\0a\0b"),
        Ok(("blob 3", &b"a\0b"[..]))
    );
    assert_eq!(reader.split_header_and_content(b"\0"), Ok(("", &b""[..])));
    assert_eq!(reader.split_header_and_content(b"blob 3"), Err(DecodeError::MissingHeader));
    assert_eq!(reader.split_header_and_content(b""), Err(DecodeError::MissingHeader));
    assert_eq!(reader.split_header_and_content(b"\xff\0"), Err(DecodeError::InvalidEncoding));
}

#[test]
fn kind_is_the_first_token_of_the_header() {
    let reader = GitObjectReader;
    assert_eq!(reader.identify_object_type("blob 6"), Ok("blob".to_string()));
    assert_eq!(reader.identify_object_type("  tree\t12 more"), Ok("tree".to_string()));
    assert_eq!(reader.identify_object_type("commit"), Ok("commit".to_string()));
    assert_eq!(reader.identify_object_type("\u{2003}x\u{3000}y"), Ok("x".to_string()));
    assert_eq!(reader.identify_object_type(""), Err(DecodeError::MissingHeader));
    assert_eq!(reader.identify_object_type(" \t\n"), Err(DecodeError::MissingHeader));
}

#[test]
fn write_makes_a_zlib_stream_of_the_encoding() {
    let blob = Blob::new(b"hello\n".to_vec()).unwrap();
    let files = GitObjectWriter.write_object(&GitObjectKind::Blob(blob)).unwrap();
    assert_eq!(files.len(), 1);
    assert_eq!(files[0].path.dir, "ce");
    assert_eq!(files[0].path.file, "013625030ba8dba906f756967f9e9ca394464a");
    assert_ne!(files[0].data, b"blob 6\0hello\n".to_vec());
    assert_eq!(decompress(&files[0].data), b"blob 6\0hello\n".to_vec());
    assert_eq!(decompress(&pack(b"abc").unwrap()), b"abc".to_vec());
}

#[test]
fn write_then_load_gives_the_object_back() {
    let writer = GitObjectWriter;
    let blob = GitObjectKind::Blob(Blob::new("caf\u{e9}".as_bytes().to_vec()).unwrap());
    let files = writer.write_object(&blob).unwrap();
    assert_eq!(read_object(blob.get_hash(), Some(&files[0].data)), Ok(blob));

    let tree = GitObjectKind::Tree(
        Tree::new(vec![TreeEntry {
            mode: "100644".to_string(),
            name: "hello.txt".to_string(),
            hash: HELLO.to_string(),
            object: None,
        }])
        .unwrap(),
    );
    let files = writer.write_object(&tree).unwrap();
    assert_eq!(read_object(tree.get_hash(), Some(&files[0].data)), Ok(tree));

    let commit = GitObjectKind::Commit(
        Commit::new(&EMPTY_TREE.to_string(), &Some(HELLO.to_string()), &"m".to_string(), None)
            .unwrap(),
    );
    let files = writer.write_object(&commit).unwrap();
    let loaded = read_object("f0b8bd7c7e1f2f0cdd3fb1bbbdd7e2fa9b3f2c6e", Some(&files[0].data));
    assert_eq!(loaded, Err(StoreError::Corrupt(DecodeError::AddressMismatch)));
    let loaded = read_object(commit.get_hash(), Some(&files[0].data)).unwrap();
    assert_eq!(loaded, commit);
    // a loaded object is written as the file it was loaded from
    assert_eq!(writer.write_object(&loaded).unwrap(), files);
}

#[test]
fn write_writes_children_before_parents() {
    let inner_blob = Blob::new(b"a".to_vec()).unwrap();
    let inner = Tree::new(vec![TreeEntry {
        mode: "100644".to_string(),
        name: "a.txt".to_string(),
        hash: inner_blob.base.hash.clone(),
        object: Some(GitObjectKind::Blob(inner_blob)),
    }])
    .unwrap();
    let outer_blob = Blob::new(b"b".to_vec()).unwrap();
    let outer = Tree::new(vec![
        TreeEntry {
            mode: "40000".to_string(),
            name: "sub".to_string(),
            hash: inner.base.hash.clone(),
            object: Some(GitObjectKind::Tree(inner)),
        },
        TreeEntry {
            mode: "100644".to_string(),
            name: "b.txt".to_string(),
            hash: outer_blob.base.hash.clone(),
            object: Some(GitObjectKind::Blob(outer_blob)),
        },
        TreeEntry {
            mode: "100644".to_string(),
            name: "known".to_string(),
            hash: HELLO.to_string(),
            object: None,
        },
    ])
    .unwrap();
    let files = GitObjectWriter.write_object(&GitObjectKind::Tree(outer)).unwrap();
    let places: Vec<String> =
        files.iter().map(|f| format!("{}{}", f.path.dir, f.path.file)).collect();
    // the entries are sorted (b.txt, known, sub), and each child is written
    // before the snapshot that lists it; `known` holds no child
    assert_eq!(
        places,
        vec![
            "63d8dbd40c23542e740659a7168a0ce3138ea748",
            "2e65efe2a145dda7ee51d1741299f848e5bf752e",
            "1a602d9bd07ce5272ddaa64e21da12dbca2b8c9f",
            "7446bd8840bd73c5aae5c00161720afdd9ded149",
        ]
    );
    assert_eq!(decompress(&files[0].data), b"blob 1\0b".to_vec());
    assert_eq!(decompress(&files[1].data), b"blob 1\0a".to_vec());
    assert!(decompress(&files[2].data).starts_with(b"tree 33\0100644 a.txt\0"));
    assert!(decompress(&files[3].data).starts_with(b"tree "));
}

#[test]
fn write_rejects_an_object_without_an_address() {
    let writer = GitObjectWriter;
    let blob = Blob { base: GitObjectBase { hash: "nope".to_string() }, content: "x".to_string() };
    assert_eq!(writer.write_object(&GitObjectKind::Blob(blob)), Err(StoreError::InvalidAddress));
    let child = Blob { base: GitObjectBase { hash: String::new() }, content: "x".to_string() };
    let tree = Tree {
        base: GitObjectBase { hash: EMPTY_TREE.to_string() },
        entries: vec![TreeEntry {
            mode: "100644".to_string(),
            name: "x".to_string(),
            hash: HELLO.to_string(),
            object: Some(GitObjectKind::Blob(child)),
        }],
    };
    assert_eq!(writer.write_object(&GitObjectKind::Tree(tree)), Err(StoreError::InvalidAddress));
    let odd = Tree {
        base: GitObjectBase { hash: EMPTY_TREE.to_string() },
        entries: vec![TreeEntry {
            mode: "100644".to_string(),
            name: "x".to_string(),
            hash: "not hex".to_string(),
            object: None,
        }],
    };
    assert_eq!(writer.write_object(&GitObjectKind::Tree(odd)), Err(StoreError::InvalidAddress));
}

#[test]
fn write_once_keeps_what_exists() {
    let writer = GitObjectWriter;
    let file = || StoredObject {
        path: ObjectPath { dir: "ce".to_string(), file: "01".to_string() },
        data: vec![1, 2, 3],
    };
    assert_eq!(writer.write_once(file(), true), Err(StoreError::AlreadyExists));
    assert_eq!(writer.write_once(file(), false), Ok(file()));
}

#[test]
fn write_if_absent_skips_what_exists() {
    let writer = GitObjectWriter;
    let file = || StoredObject {
        path: ObjectPath { dir: "ce".to_string(), file: "01".to_string() },
        data: vec![1, 2, 3],
    };
    assert_eq!(writer.write_if_absent(file(), true), None);
    assert_eq!(writer.write_if_absent(file(), false), Some(file()));
}

#[test]
fn stored_object_needs_what_the_compressor_made() {
    let path = || ObjectPath { dir: "ce".to_string(), file: "01".to_string() };
    assert_eq!(GitObjectWriter::stored_object(path(), None), Err(StoreError::Io));
    assert_eq!(
        GitObjectWriter::stored_object(path(), Some(vec![9])),
        Ok(StoredObject { path: path(), data: vec![9] })
    );
}

#[test]
fn storing_again_finds_the_first_content() {
    let writer = GitObjectWriter;
    let blob = GitObjectKind::Blob(Blob::new(b"hello\n".to_vec()).unwrap());
    let first = writer.write_object(&blob).unwrap().pop().unwrap();
    let kept = first.data.clone();
    let again = writer.write_object(&blob).unwrap().pop().unwrap();
    assert_eq!(again.path, first.path);
    assert_eq!(writer.write_once(again, true), Err(StoreError::AlreadyExists));
    assert_eq!(read_object(HELLO, Some(&kept)), Ok(blob));
}

#[test]
fn hashing_a_file_writes_only_on_demand() {
    let (hash, files) = file_to_hash(b"hello\n".to_vec(), false).unwrap();
    assert_eq!(hash, HELLO);
    assert!(files.is_empty());
    let (hash, files) = file_to_hash(b"hello\n".to_vec(), true).unwrap();
    assert_eq!(hash, HELLO);
    assert_eq!(files.len(), 1);
    assert_eq!(decompress(&files[0].data), b"blob 6\0hello\n".to_vec());
    assert_eq!(
        file_to_hash(vec![0xff], true),
        Err(StoreError::Corrupt(DecodeError::InvalidEncoding))
    );
}
