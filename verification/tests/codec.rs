use codecrafters_git::error::DecodeError;
use codecrafters_git::error::StoreError;
use codecrafters_git::objects::blob::Blob;
use codecrafters_git::objects::commit::Commit;
use codecrafters_git::objects::commit::CommitAuthor;
use codecrafters_git::objects::object_base::GitObject;
use codecrafters_git::objects::object_base::GitObjectBase;
use codecrafters_git::objects::object_base::decimal_text;
use codecrafters_git::objects::object_base::encode_object;
use codecrafters_git::objects::object_base::header_string;
use codecrafters_git::objects::object_kind::GitObjectKind;
use codecrafters_git::objects::order::bytes_le;
use codecrafters_git::objects::tree::Tree;
use codecrafters_git::objects::tree::TreeEntry;
use codecrafters_git::objects::utils::compute_sha1;
use codecrafters_git::objects::utils::compute_sha1_from_bytes;
use codecrafters_git::objects::utils::hash_to_object_path;
use codecrafters_git::objects::utils::hex_decode_text;
use codecrafters_git::objects::utils::hex_encode_bytes;
use codecrafters_git::objects::utils::is_valid_address;

const HELLO: &str = "ce013625030ba8dba906f756967f9e9ca394464a";
const EMPTY_TREE: &str = "4b825dc642cb6eb9a060e54bf8d69288fbee4904";

fn entry(mode: &str, name: &str, hash: &str) -> TreeEntry {
    TreeEntry { mode: mode.to_string(), name: name.to_string(), hash: hash.to_string(), object: None }
}

#[test]
fn digest_is_sha1_in_lowercase_hex() {
    assert_eq!(compute_sha1_from_bytes(b"hello world"), "2aae6c35c94fcfb415dbe95f408b9ce91ee846ed");
    assert_eq!(compute_sha1_from_bytes(b""), "da39a3ee5e6b4b0d3255bfef95601890afd80709");
    assert_eq!(compute_sha1("hello world"), "2aae6c35c94fcfb415dbe95f408b9ce91ee846ed");
}

#[test]
fn hexadecimal_is_two_lowercase_digits_to_the_byte() {
    assert_eq!(hex_encode_bytes(b""), "");
    assert_eq!(hex_encode_bytes(&[0x00, 0x0f, 0x10, 0xab, 0xff]), "000f10abff");
    let all: Vec<u8> = (0..=255).collect();
    assert_eq!(hex_encode_bytes(&all), hex::encode(&all));
    assert_eq!(hex_decode_text(&hex::encode(&all)), Some(all.clone()));
    assert_eq!(hex_decode_text(&hex::encode_upper(&all)), Some(all));
    assert_eq!(hex_decode_text(""), Some(Vec::new()));
    assert_eq!(hex_decode_text("0aF9"), Some(vec![0x0a, 0xf9]));
    for text in ["", "00", "0", "abc", "zz", "0g", "g0", " 0", "0x10", "\u{e9}", "\u{e9}0", "a\u{e9}", "AbCdEf", "@G`g/:"] {
        assert_eq!(hex_decode_text(text), hex::decode(text).ok(), "{:?}", text);
    }
}

#[test]
fn decimal_has_no_leading_zeros() {
    assert_eq!(decimal_text(0), "0");
    assert_eq!(decimal_text(7), "7");
    assert_eq!(decimal_text(10), "10");
    assert_eq!(decimal_text(1234567890), "1234567890");
    assert_eq!(decimal_text(usize::MAX), usize::MAX.to_string());
}

#[test]
fn header_is_tag_space_length_nul() {
    assert_eq!(header_string("blob", 6), "blob 6\0");
    assert_eq!(header_string("commit", 139), "commit 139\0");
    assert_eq!(encode_object("tree", b""), b"tree 0\0".to_vec());
    assert_eq!(encode_object("blob", b"ab"), b"blob 2\0ab".to_vec());
}

#[test]
fn header_counts_the_bytes_of_the_payload() {
    let blob = Blob::new("h\u{e9}llo".as_bytes().to_vec()).unwrap();
    assert_eq!(blob.compute_size(), 6);
    assert_eq!(blob.get_header(), "blob 6\0");
    assert_eq!(blob.get_header_prefix(), "blob");
    assert_eq!(blob.compute_object_data(), b"blob 6\0h\xc3\xa9llo".to_vec());
}

#[test]
fn address_is_forty_lowercase_hex_digits() {
    assert!(is_valid_address(HELLO));
    assert!(is_valid_address("0123456789abcdef0123456789abcdef01234567"));
    assert!(!is_valid_address(""));
    assert!(!is_valid_address("ce013625030ba8dba906f756967f9e9ca394464"));
    assert!(!is_valid_address("ce013625030ba8dba906f756967f9e9ca394464aa"));
    assert!(!is_valid_address("CE013625030BA8DBA906F756967F9E9CA394464A"));
    assert!(!is_valid_address("ge013625030ba8dba906f756967f9e9ca394464a"));
    assert!(!is_valid_address("\u{e9}e013625030ba8dba906f756967f9e9ca39446"));
}

#[test]
fn path_splits_the_address_after_two_digits() {
    let path = hash_to_object_path(HELLO).unwrap();
    assert_eq!(path.dir, "ce");
    assert_eq!(path.file, "013625030ba8dba906f756967f9e9ca394464a");
    assert_eq!(hash_to_object_path("abc"), Err(StoreError::InvalidAddress));
    assert_eq!(
        hash_to_object_path("CE013625030BA8DBA906F756967F9E9CA394464A"),
        Err(StoreError::InvalidAddress)
    );
}

#[test]
fn object_path_comes_from_the_carried_address() {
    let blob = Blob::new(b"hello\n".to_vec()).unwrap();
    let path = blob.compute_file_path().unwrap();
    assert_eq!(path.dir, "ce");
    assert_eq!(path.file, "013625030ba8dba906f756967f9e9ca394464a");
    let odd = Blob { base: GitObjectBase { hash: "short".to_string() }, content: String::new() };
    assert_eq!(odd.compute_file_path(), Err(StoreError::InvalidAddress));
}

#[test]
fn content_must_be_utf8() {
    assert_eq!(
        Blob::new(vec![0x66, 0xff, 0x6f]),
        Err(StoreError::Corrupt(DecodeError::InvalidEncoding))
    );
    assert_eq!(Blob::from_object_file(HELLO, &[0xc3, 0x28]), Err(DecodeError::InvalidEncoding));
    let empty = Blob::new(Vec::new()).unwrap();
    assert_eq!(empty.base.hash, "e69de29bb2d1d6434b8b29ae775ad8c2e48c5391");
    assert_eq!(empty.content, "");
}

#[test]
fn content_round_trips() {
    let blob = Blob::new("gr\u{fc}\u{df}e\n\0tail".as_bytes().to_vec()).unwrap();
    let data = blob.compute_object_data();
    let header_end = data.iter().position(|&b| b == 0).unwrap();
    let decoded = Blob::from_object_file(&blob.base.hash, &data[header_end + 1..]).unwrap();
    assert_eq!(decoded, blob);
}

#[test]
fn bytes_are_ordered_lexicographically() {
    assert!(bytes_le(b"", b""));
    assert!(bytes_le(b"", b"a"));
    assert!(!bytes_le(b"a", b""));
    assert!(bytes_le(b"a", b"a"));
    assert!(bytes_le(b"a", b"ab"));
    assert!(!bytes_le(b"ab", b"a"));
    assert!(bytes_le(b"ab", b"b"));
    assert!(!bytes_le(b"b", b"ab"));
    assert!(bytes_le(b"Z", b"a"));
    assert!(bytes_le(b"a", "\u{e9}".as_bytes()));
    assert!(!bytes_le(&[0xff], &[0x7f]));
}

#[test]
fn snapshot_sorts_its_entries_by_name() {
    let tree = Tree::new(vec![
        entry("100644", "b.txt", HELLO),
        entry("40000", "a", EMPTY_TREE),
        entry("100644", "B", HELLO),
        entry("100644", "a.txt", HELLO),
    ])
    .unwrap();
    let names: Vec<&str> = tree.entries.iter().map(|e| e.name.as_str()).collect();
    assert_eq!(names, vec!["B", "a", "a.txt", "b.txt"]);
    assert_eq!(tree.entries[1].mode, "40000");
    assert_eq!(tree.entries[1].hash, EMPTY_TREE);
}

#[test]
fn snapshot_keeps_the_order_of_entries_with_one_name() {
    let other = "0123456789abcdef0123456789abcdef01234567";
    let tree = Tree::new(vec![
        entry("100644", "same", HELLO),
        entry("100644", "first", HELLO),
        entry("100755", "same", other),
    ])
    .unwrap();
    assert_eq!(tree.entries[0].name, "first");
    assert_eq!(tree.entries[1].hash, HELLO);
    assert_eq!(tree.entries[2].hash, other);
    assert_eq!(tree.entries[2].mode, "100755");
}

#[test]
fn snapshot_sorts_many_entries_as_a_stable_sort_does() {
    let mut state: u32 = 12345;
    let mut entries = Vec::new();
    for index in 0..257 {
        state = state.wrapping_mul(1103515245).wrapping_add(12345);
        // few names, so that many entries share one; the mode tells them apart
        let name = format!("n{}", (state >> 16) % 40);
        entries.push(entry(&format!("{}", index), &name, HELLO));
    }
    let mut expected: Vec<(String, String)> =
        entries.iter().map(|e| (e.name.clone(), e.mode.clone())).collect();
    expected.sort_by(|a, b| a.0.as_bytes().cmp(b.0.as_bytes()));
    let tree = Tree::new(entries).unwrap();
    let sorted: Vec<(String, String)> =
        tree.entries.iter().map(|e| (e.name.clone(), e.mode.clone())).collect();
    assert_eq!(sorted, expected);
}

#[test]
fn snapshot_does_not_depend_on_the_order_of_its_entries() {
    let one = Tree::new(vec![
        entry("100644", "x", HELLO),
        entry("40000", "d", EMPTY_TREE),
        entry("100644", "m", HELLO),
    ])
    .unwrap();
    let other = Tree::new(vec![
        entry("100644", "m", HELLO),
        entry("100644", "x", HELLO),
        entry("40000", "d", EMPTY_TREE),
    ])
    .unwrap();
    assert_eq!(one.base.hash, other.base.hash);
    assert_eq!(one, other);
}

#[test]
fn snapshot_payload_holds_the_child_address_in_binary() {
    let tree = Tree::new(vec![entry("100644", "hello.txt", HELLO)]).unwrap();
    let mut expected = b"tree 37\0100644 hello.txt\0".to_vec();
    expected.extend_from_slice(&[
        0xce, 0x01, 0x36, 0x25, 0x03, 0x0b, 0xa8, 0xdb, 0xa9, 0x06, 0xf7, 0x56, 0x96, 0x7f, 0x9e,
        0x9c, 0xa3, 0x94, 0x46, 0x4a,
    ]);
    assert_eq!(tree.compute_object_data(), expected);
    assert_eq!(tree.compute_size(), 37);
    assert_eq!(tree.get_header(), "tree 37\0");
    assert_eq!(tree.base.hash, "aaa96ced2d9a1c8e72c56b253a0e2fe78393feb7");
}

#[test]
fn snapshot_rejects_a_child_address_that_is_none() {
    assert_eq!(Tree::new(vec![entry("100644", "a", "abcd")]), Err(StoreError::InvalidAddress));
    assert_eq!(
        Tree::new(vec![
            entry("100644", "a", HELLO),
            entry("100644", "b", "CE013625030BA8DBA906F756967F9E9CA394464A"),
        ]),
        Err(StoreError::InvalidAddress)
    );
    let odd = Tree { base: GitObjectBase { hash: String::new() }, entries: vec![entry("1", "a", "zz")] };
    assert!(!odd.is_encodable());
    assert!(!GitObjectKind::Tree(odd).is_encodable());
    assert!(GitObjectKind::Tree(Tree::new(vec![entry("1", "a", HELLO)]).unwrap()).is_encodable());
    assert!(GitObjectKind::Blob(Blob::new(Vec::new()).unwrap()).is_encodable());
}

#[test]
fn snapshot_rejects_a_mode_or_a_name_that_is_none() {
    assert_eq!(Tree::new(vec![entry("100 644", "a", HELLO)]), Err(StoreError::InvalidField));
    assert_eq!(Tree::new(vec![entry("100644", "a/b", HELLO)]), Err(StoreError::InvalidField));
    assert_eq!(Tree::new(vec![entry("100644", "a\0b", HELLO)]), Err(StoreError::InvalidField));
    assert_eq!(
        Tree::new(vec![entry("100644", "fine", HELLO), entry("40000", "/", EMPTY_TREE)]),
        Err(StoreError::InvalidField)
    );
    // the address is looked at first
    assert_eq!(Tree::new(vec![entry("1 0", "a/b", "nope")]), Err(StoreError::InvalidAddress));
    assert!(Tree::new(vec![entry("", "", HELLO), entry("\0", "a b\\c", HELLO)]).is_ok());
}

#[test]
fn snapshot_round_trips() {
    let tree = Tree::new(vec![
        entry("100644", "z\u{e9}", HELLO),
        entry("40000", "dir with space", EMPTY_TREE),
    ])
    .unwrap();
    let data = tree.compute_object_data();
    let header_end = data.iter().position(|&b| b == 0).unwrap();
    let decoded = Tree::from_object_file(&tree.base.hash, &data[header_end + 1..]).unwrap();
    assert_eq!(decoded, tree);
}

#[test]
fn snapshot_decoder_reports_what_is_missing() {
    assert_eq!(Tree::from_object_file(EMPTY_TREE, b"").unwrap().entries.len(), 0);
    assert_eq!(Tree::from_object_file(EMPTY_TREE, b"100644"), Err(DecodeError::Truncated));
    assert_eq!(Tree::from_object_file(EMPTY_TREE, b"100644 name"), Err(DecodeError::Truncated));
    assert_eq!(
        Tree::from_object_file(EMPTY_TREE, b"100644 name\0nineteen bytes only"),
        Err(DecodeError::Truncated)
    );
    assert_eq!(
        Tree::from_object_file(EMPTY_TREE, b"\xff\xfe name\0aaaaaaaaaaaaaaaaaaaa"),
        Err(DecodeError::InvalidEncoding)
    );
    assert_eq!(
        Tree::from_object_file(EMPTY_TREE, b"100644 \xc3\x28\0aaaaaaaaaaaaaaaaaaaa"),
        Err(DecodeError::InvalidEncoding)
    );
    let mut two = b"100644 a\0aaaaaaaaaaaaaaaaaaaa".to_vec();
    two.extend_from_slice(b"40000 b\0bbbbbbbbbbbbbbbbbbbb");
    let tree = Tree::from_object_file(EMPTY_TREE, &two).unwrap();
    assert_eq!(tree.base.hash, EMPTY_TREE);
    assert_eq!(tree.entries.len(), 2);
    assert_eq!(tree.entries[0], entry("100644", "a", "6161616161616161616161616161616161616161"));
    assert_eq!(tree.entries[1], entry("40000", "b", "6262626262626262626262626262626262626262"));
    two.extend_from_slice(b"1 c\0short");
    assert_eq!(Tree::from_object_file(EMPTY_TREE, &two), Err(DecodeError::Truncated));
}

#[test]
fn revision_payload_has_the_lines_in_order() {
    let parent = "08da511e15318c59918c588eac20b19135fe7c5c".to_string();
    let commit =
        Commit::new(&EMPTY_TREE.to_string(), &Some(parent.clone()), &"second".to_string(), None)
            .unwrap();
    assert_eq!(commit.base.hash, "c31579e93ea4a5eab45663b50a720665b181171e");
    assert_eq!(commit.parent_hash, Some(parent));
    assert_eq!(commit.compute_size(), 139);
    assert_eq!(commit.get_header(), "commit 139\0");
    assert_eq!(
        commit.payload_string(),
        "tree 4b825dc642cb6eb9a060e54bf8d69288fbee4904\n\
         parent 08da511e15318c59918c588eac20b19135fe7c5c\n\
         author unpseudo <unpseudo@mail.mail>\n\nsecond\n"
    );
    let mut expected = b"commit 139\0".to_vec();
    expected.extend_from_slice(commit.payload_string().as_bytes());
    assert_eq!(commit.compute_object_data(), expected);
}

#[test]
fn revision_takes_the_given_author() {
    let author = CommitAuthor { name: "ada".to_string(), email: "ada@example.org".to_string() };
    let commit =
        Commit::new(&EMPTY_TREE.to_string(), &None, &"m".to_string(), Some(author.clone())).unwrap();
    assert_eq!(commit.author, author);
    assert_eq!(
        commit.payload_string(),
        "tree 4b825dc642cb6eb9a060e54bf8d69288fbee4904\nauthor ada <ada@example.org>\n\nm\n"
    );
    let default = CommitAuthor::default_author();
    assert_eq!(default.name, "unpseudo");
    assert_eq!(default.email, "unpseudo@mail.mail");
}

#[test]
fn revision_rejects_what_cannot_be_stored() {
    let tree = EMPTY_TREE.to_string();
    let new = |tree: &str, parent: Option<&str>, message: &str, name: &str, email: &str| {
        Commit::new(
            &tree.to_string(),
            &parent.map(|p| p.to_string()),
            &message.to_string(),
            Some(CommitAuthor { name: name.to_string(), email: email.to_string() }),
        )
        .map(|c| c.base.hash.len())
    };
    assert_eq!(new(&tree, None, "m", "a", "b"), Ok(40));
    assert_eq!(new(&tree, Some(HELLO), "", "", ""), Ok(40));
    assert_eq!(new(&tree, None, "m\n<>", "a <b> c", "b c"), Ok(40));
    assert_eq!(new("", None, "m", "a", "b"), Err(StoreError::InvalidAddress));
    assert_eq!(new("main", None, "m", "a", "b"), Err(StoreError::InvalidAddress));
    assert_eq!(new(&tree, Some("HEAD"), "m", "a", "b"), Err(StoreError::InvalidAddress));
    assert_eq!(new(&tree.to_uppercase(), None, "m", "a", "b"), Err(StoreError::InvalidAddress));
    assert_eq!(new(&tree, None, "m", "a\nb", "b"), Err(StoreError::InvalidField));
    assert_eq!(new(&tree, None, "m", "a", "b\n"), Err(StoreError::InvalidField));
    assert_eq!(new(&tree, None, "m", "a", "<b"), Err(StoreError::InvalidField));
    assert_eq!(new(&tree, None, "m", "a", "b>"), Err(StoreError::InvalidField));
    assert_eq!(new(&tree, None, "m\0", "a", "b"), Err(StoreError::InvalidField));
    assert_eq!(new("nope", None, "m\0", "a", "b"), Err(StoreError::InvalidAddress));
}

#[test]
fn revision_round_trips_whatever_its_author_and_message() {
    for (name, email, message) in [
        ("", "", ""),
        ("a <b> c", "b c", "m\n<>"),
        ("  spaced  out  ", " ", " \n \n"),
        ("J\u{fc}rgen <", "j\u{fc}rgen@x.de", "Gr\u{fc}\u{df}e\n\ntree x\nauthor a <b>\n"),
    ] {
        let commit = Commit::new(
            &EMPTY_TREE.to_string(),
            &Some(HELLO.to_string()),
            &message.to_string(),
            Some(CommitAuthor { name: name.to_string(), email: email.to_string() }),
        )
        .unwrap();
        let decoded =
            Commit::from_object_file(&commit.base.hash, commit.payload_string().as_bytes()).unwrap();
        assert_eq!(decoded, commit);
    }
}

#[test]
fn revision_decodes_its_fields() {
    let commit = Commit::from_object_file(
        "c31579e93ea4a5eab45663b50a720665b181171e",
        b"tree aaaa\nparent bbbb\nauthor ada <a@b> 1700000000 +0100\n\nline one\nline two\n",
    )
    .unwrap();
    assert_eq!(commit.base.hash, "c31579e93ea4a5eab45663b50a720665b181171e");
    assert_eq!(commit.tree_hash, "aaaa");
    assert_eq!(commit.parent_hash, Some("bbbb".to_string()));
    assert_eq!(commit.author.name, "ada");
    assert_eq!(commit.author.email, "a@b");
    assert_eq!(commit.message, "line one\nline two");
}

#[test]
fn revision_decodes_an_author_of_several_words() {
    let hash = "0123456789abcdef0123456789abcdef01234567";
    let commit = Commit::from_object_file(
        hash,
        b"tree 4b825dc642cb6eb9a060e54bf8d69288fbee4904\nauthor John Doe <john@example.com>\n\ninit\n",
    )
    .unwrap();
    assert_eq!(commit.base.hash, hash);
    assert_eq!(commit.tree_hash, EMPTY_TREE);
    assert_eq!(commit.parent_hash, None);
    assert_eq!(commit.author.name, "John Doe");
    assert_eq!(commit.author.email, "john@example.com");
    assert_eq!(commit.message, "init");
}

#[test]
fn revision_author_line_is_taken_apart_at_the_last_bracket() {
    let author = |line: &str| {
        Commit::from_object_file(HELLO, format!("{}\n", line).as_bytes())
            .map(|c| (c.author.name, c.author.email))
    };
    let pair = |name: &str, email: &str| Ok((name.to_string(), email.to_string()));
    assert_eq!(author("author a <b>"), pair("a", "b"));
    assert_eq!(author("author  <b>"), pair("", "b"));
    assert_eq!(author("author a <>"), pair("a", ""));
    assert_eq!(author("author a <b <c>"), pair("a <b", "c"));
    assert_eq!(author("author a<b <c>d>e"), pair("a<b", "c"));
    assert_eq!(author("author J\u{fc}rgen  M. <j@x.de> tail"), pair("J\u{fc}rgen  M.", "j@x.de"));
    assert_eq!(author("author <b>"), Err(DecodeError::UnknownField));
    assert_eq!(author("author a<b>"), Err(DecodeError::UnknownField));
    assert_eq!(author("author a <b"), Err(DecodeError::UnknownField));
    assert_eq!(author("author a b"), Err(DecodeError::UnknownField));
    assert_eq!(author("author"), Err(DecodeError::UnknownField));
    assert_eq!(author("author\ta <b>"), Err(DecodeError::UnknownField));
    assert_eq!(author(" author a <b>"), Err(DecodeError::UnknownField));
}

#[test]
fn revision_round_trips() {
    let author = CommitAuthor { name: "Ada  M. Lovelace".to_string(), email: "ada@example.org".to_string() };
    for message in ["", "one line", "two\nlines", "ends in a line feed\n", "\n\n"] {
        for parent in [None, Some(HELLO.to_string())] {
            let commit = Commit::new(
                &EMPTY_TREE.to_string(),
                &parent,
                &message.to_string(),
                Some(author.clone()),
            )
            .unwrap();
            let payload = commit.payload_string();
            let decoded = Commit::from_object_file(&commit.base.hash, payload.as_bytes()).unwrap();
            assert_eq!(decoded, commit);
            assert_eq!(decoded.compute_object_data(), commit.compute_object_data());
        }
    }
    let default = Commit::new(&EMPTY_TREE.to_string(), &None, &"init".to_string(), None).unwrap();
    let decoded =
        Commit::from_object_file(&default.base.hash, default.payload_string().as_bytes()).unwrap();
    assert_eq!(decoded.author, CommitAuthor::default_author());
    assert_eq!(decoded, default);
}

#[test]
fn revision_message_loses_one_line_feed_at_most() {
    let message = |content: &[u8]| Commit::from_object_file(HELLO, content).map(|c| c.message);
    assert_eq!(message(b"\nmsg\n"), Ok("msg".to_string()));
    assert_eq!(message(b"\nmsg"), Ok("msg".to_string()));
    assert_eq!(message(b"\nmsg\n\n"), Ok("msg\n".to_string()));
    assert_eq!(message(b"\n\n"), Ok(String::new()));
    assert_eq!(message(b"\n"), Ok(String::new()));
    assert_eq!(message(b"\n\xff\n"), Err(DecodeError::InvalidEncoding));
}

#[test]
fn revision_decoder_reports_what_is_wrong() {
    let empty = Commit::from_object_file(HELLO, b"").unwrap();
    assert_eq!(empty.tree_hash, "");
    assert_eq!(empty.parent_hash, None);
    assert_eq!(empty.message, "");
    assert_eq!(Commit::from_object_file(HELLO, b"tree aaaa"), Err(DecodeError::Truncated));
    assert_eq!(Commit::from_object_file(HELLO, b"tree\n"), Err(DecodeError::UnknownField));
    assert_eq!(Commit::from_object_file(HELLO, b"tree a b\n"), Err(DecodeError::UnknownField));
    assert_eq!(Commit::from_object_file(HELLO, b"author ada\n"), Err(DecodeError::UnknownField));
    assert_eq!(Commit::from_object_file(HELLO, b"committer a <b>\n"), Err(DecodeError::UnknownField));
    assert_eq!(Commit::from_object_file(HELLO, b"   \n"), Err(DecodeError::UnknownField));
    assert_eq!(Commit::from_object_file(HELLO, b"tree \xff\n"), Err(DecodeError::InvalidEncoding));
    assert_eq!(Commit::from_object_file(HELLO, b"\n\xff"), Err(DecodeError::InvalidEncoding));
    let later = Commit::from_object_file(HELLO, b"tree a\ntree b\n").unwrap();
    assert_eq!(later.tree_hash, "b");
    assert_eq!(later.message, "");
    let wide = Commit::from_object_file(HELLO, "tree\u{a0}a\n\nm".as_bytes()).unwrap();
    assert_eq!(wide.tree_hash, "a");
    assert_eq!(wide.message, "m");
}

#[test]
fn shown_data_depends_on_the_kind() {
    let blob = GitObjectKind::Blob(Blob::new(b"text".to_vec()).unwrap());
    assert_eq!(blob.get_data(), Ok("text".to_string()));
    let none = GitObjectKind::Tree(Tree::new(Vec::new()).unwrap());
    assert_eq!(none.get_data(), Ok(String::new()));
    let one = GitObjectKind::Tree(Tree::new(vec![entry("100644", "only", HELLO)]).unwrap());
    assert_eq!(one.get_data(), Ok("only".to_string()));
    let tree = GitObjectKind::Tree(
        Tree::new(vec![entry("100644", "b", HELLO), entry("100644", "a", HELLO), entry("40000", "c", HELLO)])
            .unwrap(),
    );
    assert_eq!(tree.get_data(), Ok("a\nb\nc".to_string()));
    assert_eq!(tree.get_header_prefix(), "tree");
    let commit = GitObjectKind::Commit(
        Commit::new(&EMPTY_TREE.to_string(), &None, &"init".to_string(), None).unwrap(),
    );
    assert_eq!(commit.get_header_prefix(), "commit");
    assert_eq!(commit.compute_size(), 89);
    assert_eq!(
        commit.get_data(),
        Ok("tree 4b825dc642cb6eb9a060e54bf8d69288fbee4904\nauthor unpseudo <unpseudo@mail.mail>\n\ninit\n"
            .to_string())
    );
}

#[test]
fn payload_without_header_names_no_kind() {
    assert_eq!(GitObjectKind::from_object_file(HELLO, b"hello\n"), Err(DecodeError::UnknownKind));
}
