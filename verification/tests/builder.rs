use codecrafters_git::error::DecodeError;
use codecrafters_git::error::StoreError;
use codecrafters_git::fs_reader::FsEntry;
use codecrafters_git::fs_reader::FsNode;
use codecrafters_git::objects::object_base::GitObject;
use codecrafters_git::objects::object_kind::GitObjectKind;
use codecrafters_git::objects::object_manager::create_object;
use codecrafters_git::objects::object_manager::read_object;
use codecrafters_git::objects::object_transformer::GitObjectTransformer;
use codecrafters_git::objects::tree::Tree;

fn file(name: &str, content: &[u8]) -> FsEntry {
    FsEntry { name: name.to_string(), node: FsNode::File(content.to_vec()) }
}

fn dir(name: &str, children: Vec<FsEntry>) -> FsEntry {
    FsEntry { name: name.to_string(), node: FsNode::Directory(children) }
}

fn tree_of(object: GitObjectKind) -> Tree {
    match object {
        GitObjectKind::Tree(tree) => tree,
        other => panic!("expected a snapshot, got {:?}", other),
    }
}

#[test]
fn file_becomes_content() {
    let object = GitObjectTransformer::new(false)
        .transform_fs_to_object(&FsNode::File(b"hello\n".to_vec()))
        .unwrap();
    assert!(matches!(object, GitObjectKind::Blob(_)));
    assert_eq!(object.get_hash(), "ce013625030ba8dba906f756967f9e9ca394464a");
}

#[test]
fn empty_directory_becomes_the_empty_snapshot() {
    let object =
        GitObjectTransformer::new(false).transform_fs_to_object(&FsNode::Directory(Vec::new())).unwrap();
    assert_eq!(object.get_hash(), "4b825dc642cb6eb9a060e54bf8d69288fbee4904");
}

#[test]
fn what_is_neither_file_nor_directory_fails() {
    let transformer = GitObjectTransformer::new(false);
    assert_eq!(transformer.transform_fs_to_object(&FsNode::Unreadable), Err(StoreError::Io));
    assert_eq!(create_object(&FsNode::Unreadable), Err(StoreError::Io));
    assert_eq!(
        transformer.transform_fs_to_object(&FsNode::File(vec![0xff])),
        Err(StoreError::Corrupt(DecodeError::InvalidEncoding))
    );
}

#[test]
fn builder_sorts_and_nests() {
    let root = FsNode::Directory(vec![
        dir("sub", vec![file("a.txt", b"a")]),
        dir(".git", vec![file("HEAD", b"ref: refs/heads/main\n")]),
        file("b.txt", b"b"),
    ]);
    let tree = tree_of(GitObjectTransformer::new(false).transform_fs_to_object(&root).unwrap());
    assert_eq!(tree.base.hash, "8e4529e1c377acdd512a932bb519a2fe048e22bd");
    assert_eq!(tree.entries.len(), 2);
    assert_eq!(tree.entries[0].name, "b.txt");
    assert_eq!(tree.entries[0].mode, "100644");
    assert_eq!(tree.entries[0].hash, "63d8dbd40c23542e740659a7168a0ce3138ea748");
    assert_eq!(tree.entries[1].name, "sub");
    assert_eq!(tree.entries[1].mode, "40000");
    assert_eq!(tree.entries[1].hash, "1a602d9bd07ce5272ddaa64e21da12dbca2b8c9f");
    let sub = match &tree.entries[1].object {
        Some(GitObjectKind::Tree(sub)) => sub,
        other => panic!("expected the child snapshot, got {:?}", other),
    };
    assert_eq!(sub.entries.len(), 1);
    assert_eq!(sub.entries[0].name, "a.txt");
    assert_eq!(sub.entries[0].hash, "2e65efe2a145dda7ee51d1741299f848e5bf752e");
    assert!(matches!(sub.entries[0].object, Some(GitObjectKind::Blob(_))));
}

#[test]
fn builder_does_not_depend_on_the_listing_order() {
    let one = FsNode::Directory(vec![file("x", b"1"), file("a", b"2"), dir("m", vec![file("q", b"3")])]);
    let other = FsNode::Directory(vec![dir("m", vec![file("q", b"3")]), file("x", b"1"), file("a", b"2")]);
    let transformer = GitObjectTransformer::new(false);
    let first = tree_of(transformer.transform_fs_to_object(&one).unwrap());
    let second = tree_of(transformer.transform_fs_to_object(&other).unwrap());
    assert_eq!(first.base.hash, second.base.hash);
    let names: Vec<&str> = first.entries.iter().map(|e| e.name.as_str()).collect();
    assert_eq!(names, vec!["a", "m", "x"]);
    assert_eq!(first, second);
}

#[test]
fn store_directory_is_left_out_at_every_depth() {
    let with = FsNode::Directory(vec![
        dir("sub", vec![dir(".git", vec![file("x", b"x")]), file("a.txt", b"a")]),
        file("b.txt", b"b"),
        file(".git", b"gitdir: elsewhere"),
    ]);
    let tree = tree_of(GitObjectTransformer::new(true).transform_fs_to_object(&with).unwrap());
    assert_eq!(tree.base.hash, "8e4529e1c377acdd512a932bb519a2fe048e22bd");
    let kept = FsNode::Directory(vec![file(".gitignore", b"target\n"), file("git", b"")]);
    let tree = tree_of(GitObjectTransformer::new(true).transform_fs_to_object(&kept).unwrap());
    assert_eq!(tree.entries.len(), 2);
}

#[test]
fn best_effort_leaves_out_what_cannot_be_built() {
    let root = FsNode::Directory(vec![
        file("bad.bin", &[0xff, 0xfe]),
        FsEntry { name: "socket".to_string(), node: FsNode::Unreadable },
        dir("sub", vec![file("a.txt", b"a"), file("worse.bin", &[0xc3])]),
        file("b.txt", b"b"),
    ]);
    let transformer = GitObjectTransformer::new(false);
    assert!(!transformer.fail_fast);
    let tree = tree_of(transformer.transform_fs_to_object(&root).unwrap());
    assert_eq!(tree.base.hash, "8e4529e1c377acdd512a932bb519a2fe048e22bd");
    assert_eq!(tree.entries.len(), 2);
}

#[test]
fn child_with_a_name_that_is_none_is_left_out_or_fails() {
    let root = FsNode::Directory(vec![
        file("a/b", b"nested"),
        dir("sub", vec![file("a.txt", b"a"), file("nul\0", b"x")]),
        file("b.txt", b"b"),
    ]);
    let tree = tree_of(GitObjectTransformer::new(false).transform_fs_to_object(&root).unwrap());
    assert_eq!(tree.base.hash, "8e4529e1c377acdd512a932bb519a2fe048e22bd");
    assert_eq!(
        GitObjectTransformer::new(true).transform_fs_to_object(&root),
        Err(StoreError::InvalidField)
    );
}

#[test]
fn fail_fast_reports_the_first_child_that_cannot_be_built() {
    let transformer = GitObjectTransformer::new(true);
    assert!(transformer.fail_fast);
    let root = FsNode::Directory(vec![
        file("ok", b"fine"),
        dir("sub", vec![file("bad.bin", &[0xff])]),
        FsEntry { name: "socket".to_string(), node: FsNode::Unreadable },
    ]);
    assert_eq!(
        transformer.transform_fs_to_object(&root),
        Err(StoreError::Corrupt(DecodeError::InvalidEncoding))
    );
    let root = FsNode::Directory(vec![
        FsEntry { name: "socket".to_string(), node: FsNode::Unreadable },
        file("bad.bin", &[0xff]),
    ]);
    assert_eq!(transformer.transform_fs_to_object(&root), Err(StoreError::Io));
}

#[test]
fn built_snapshot_is_written_children_first_and_loads_back() {
    let root = FsNode::Directory(vec![dir("sub", vec![file("a.txt", b"a")]), file("b.txt", b"b")]);
    let (object, files) = create_object(&root).unwrap();
    let places: Vec<String> =
        files.iter().map(|f| format!("{}/{}", f.path.dir, f.path.file)).collect();
    assert_eq!(
        places,
        vec![
            "63/d8dbd40c23542e740659a7168a0ce3138ea748",
            "2e/65efe2a145dda7ee51d1741299f848e5bf752e",
            "1a/602d9bd07ce5272ddaa64e21da12dbca2b8c9f",
            "8e/4529e1c377acdd512a932bb519a2fe048e22bd",
        ]
    );
    let loaded = tree_of(read_object(object.get_hash(), Some(&files[3].data)).unwrap());
    let built = tree_of(object);
    assert_eq!(loaded.base, built.base);
    assert_eq!(loaded.entries.len(), 2);
    for (stored, made) in loaded.entries.iter().zip(built.entries.iter()) {
        assert_eq!(stored.mode, made.mode);
        assert_eq!(stored.name, made.name);
        assert_eq!(stored.hash, made.hash);
        assert!(stored.object.is_none());
        assert!(made.object.is_some());
    }
    let sub = tree_of(read_object(&loaded.entries[1].hash, Some(&files[2].data)).unwrap());
    assert_eq!(sub.entries[0].name, "a.txt");
    let leaf = read_object(&sub.entries[0].hash, Some(&files[1].data)).unwrap();
    assert_eq!(leaf.get_data(), Ok("a".to_string()));
}
