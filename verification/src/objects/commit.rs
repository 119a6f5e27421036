//! Revision objects: a snapshot, at most one parent, an author and a message.

use crate::error::DecodeError;
use crate::error::StoreError;
use crate::objects::object_base::GitObject;
use crate::objects::object_base::GitObjectBase;
use crate::objects::object_base::canonical;
use crate::objects::object_base::encode_object;
use crate::objects::text::chars_of;
use crate::objects::text::contains_char;
use crate::objects::text::find_byte;
use crate::objects::text::is_whitespace;
use crate::objects::text::is_word;
use crate::objects::text::lemma_encode_utf8_concat;
use crate::objects::text::lemma_encode_utf8_single;
use crate::objects::text::lemma_position;
use crate::objects::text::lemma_position_after_text;
use crate::objects::text::lemma_position_is;
use crate::objects::text::lemma_position_none;
use crate::objects::text::lemma_tokens_word;
use crate::objects::text::lemma_tokens_word_then;
use crate::objects::text::position;
use crate::objects::text::same_text;
use crate::objects::text::split_whitespace;
use crate::objects::text::text_between;
use crate::objects::text::tokens;
use crate::objects::text::utf8_text;
use crate::objects::tree;
use crate::objects::utils::MAX_DIGEST_INPUT;
use crate::objects::utils::address_of;
use crate::objects::utils::compute_sha1_from_bytes;
use crate::objects::utils::is_address;
use crate::objects::utils::is_lower_hex_digit;
use crate::objects::utils::is_valid_address;
use vstd::prelude::*;
use vstd::slice::slice_subrange;
use vstd::string::*;
use vstd::utf8::*;

verus! {

/// The kind tag of a revision.
pub const HEADER_PREFIX: &'static str = "commit";

/// The word that starts the line of the parent.
pub const PARENT_PREFIX: &'static str = "parent";

/// The word that starts the line of the author.
pub const AUTHOR_PREFIX: &'static str = "author";

/// The name of the author of a revision that was given none.
pub const DEFAULT_AUTHOR_NAME: &'static str = "unpseudo";

/// The e-mail address of the author of a revision that was given none.
pub const DEFAULT_AUTHOR_EMAIL: &'static str = "unpseudo@mail.mail";

/// A revision: the address of a snapshot, the address of the revision before
/// it (if any), who made it, and a message.
#[derive(Debug, Clone, PartialEq, Eq)]
pub struct Commit {
    pub base: GitObjectBase,
    pub tree_hash: String,
    pub parent_hash: Option<String>,
    pub message: String,
    pub author: CommitAuthor,
}

/// Who made a revision.
#[derive(Debug, Clone, PartialEq, Eq)]
pub struct CommitAuthor {
    pub name: String,
    pub email: String,
}

/// What the store keeps of a revision.
pub struct CommitView {
    pub hash: Seq<char>,
    pub tree_hash: Seq<char>,
    pub parent_hash: Option<Seq<char>>,
    pub message: Seq<char>,
    pub author_name: Seq<char>,
    pub author_email: Seq<char>,
}

impl View for Commit {
    type V = CommitView;

    open spec fn view(&self) -> CommitView {
        CommitView {
            hash: self.base.hash@,
            tree_hash: self.tree_hash@,
            parent_hash: text_of(self.parent_hash),
            message: self.message@,
            author_name: self.author.name@,
            author_email: self.author.email@,
        }
    }
}

/// The text of the string, if there is one.
pub open spec fn text_of(text: Option<String>) -> Option<Seq<char>> {
    match text {
        Some(text) => Some(text@),
        None => None,
    }
}

/// The line of the parent, or nothing for a revision without one.
pub open spec fn parent_line(parent_hash: Option<Seq<char>>) -> Seq<char> {
    match parent_hash {
        Some(parent) => PARENT_PREFIX@ + seq![' '] + parent + seq!['\n'],
        None => Seq::<char>::empty(),
    }
}

/// The payload of a revision as text: the line of the snapshot, the line of
/// the parent if there is one, the line of the author, a blank line, and the
/// message with a line feed after it.
pub open spec fn payload_text(commit: CommitView) -> Seq<char> {
    tree::HEADER_PREFIX@ + seq![' '] + commit.tree_hash + seq!['\n'] + parent_line(
        commit.parent_hash,
    ) + AUTHOR_PREFIX@ + seq![' '] + commit.author_name + seq![' ', '<'] + commit.author_email
        + seq!['>', '\n', '\n'] + commit.message + seq!['\n']
}

/// `text` starts with `prefix`.
pub open spec fn starts_with(text: Seq<char>, prefix: Seq<char>) -> bool {
    text.len() >= prefix.len() && text.take(prefix.len() as int) == prefix
}

/// The index of the last space that a `<` follows.
pub open spec fn last_open(text: Seq<char>) -> Option<int>
    decreases text.len(),
{
    if text.len() < 2 {
        None
    } else if text[text.len() - 2] == ' ' && text[text.len() - 1] == '<' {
        Some(text.len() - 2)
    } else {
        last_open(text.drop_last())
    }
}

/// The name and the e-mail address that stand after `author ` in the line of
/// the author: the name is all before the last space that a `<` follows, and
/// the e-mail address is all between that `<` and the next `>`. What follows
/// the `>` is left out.
pub open spec fn author_parts(text: Seq<char>) -> Option<(Seq<char>, Seq<char>)> {
    match last_open(text) {
        None => None,
        Some(open) => {
            let after = text.skip(open + 2);
            match position(after, '>') {
                None => None,
                Some(close) => Some((text.take(open), after.take(close))),
            }
        },
    }
}

/// The word that starts the line of the author, and the space after it.
pub open spec fn author_start() -> Seq<char> {
    AUTHOR_PREFIX@ + seq![' ']
}

/// What a line makes of the fields read so far: the snapshot or the parent
/// from a line of two tokens, the author from a line that starts with
/// `author `, and nothing from any other line.
pub open spec fn apply_field(fields: CommitView, line: Seq<char>) -> Option<CommitView> {
    let words = tokens(line);
    if words.len() == 2 && words[0] == tree::HEADER_PREFIX@ {
        Some(CommitView { tree_hash: words[1], ..fields })
    } else if words.len() == 2 && words[0] == PARENT_PREFIX@ {
        Some(CommitView { parent_hash: Some(words[1]), ..fields })
    } else if starts_with(line, author_start()) {
        match author_parts(line.skip(author_start().len() as int)) {
            Some((name, email)) => Some(
                CommitView { author_name: name, author_email: email, ..fields },
            ),
            None => None,
        }
    } else {
        None
    }
}

/// The bytes of the message: all that follows the blank line, without the
/// one line feed that ends it, if one does.
pub open spec fn message_bytes(rest: Seq<u8>) -> Seq<u8> {
    if rest.len() > 0 && rest.last() == 0x0a {
        rest.drop_last()
    } else {
        rest
    }
}

/// What the lines in `content` make of the fields read so far. Each line ends
/// in a line feed and is UTF-8. A line that is not empty sets a field; the
/// first empty line ends the fields, and what follows it is the message.
pub open spec fn parse_fields(content: Seq<u8>, fields: CommitView) -> Result<
    CommitView,
    DecodeError,
>
    decreases content.len(),
{
    if content.len() == 0 {
        Ok(fields)
    } else {
        match position(content, 0x0au8) {
            None => Err(DecodeError::Truncated),
            Some(end) => {
                let line = content.take(end);
                let rest = content.skip(end + 1);
                if !valid_utf8(line) {
                    Err(DecodeError::InvalidEncoding)
                } else if decode_utf8(line).len() == 0 {
                    if valid_utf8(message_bytes(rest)) {
                        Ok(CommitView { message: decode_utf8(message_bytes(rest)), ..fields })
                    } else {
                        Err(DecodeError::InvalidEncoding)
                    }
                } else {
                    match apply_field(fields, decode_utf8(line)) {
                        None => Err(DecodeError::UnknownField),
                        Some(next) => {
                            proof {
                                lemma_position(content, 0x0au8);
                            }
                            parse_fields(rest, next)
                        },
                    }
                }
            },
        }
    }
}

/// The fields of a revision of which nothing was read yet.
pub open spec fn no_fields(hash: Seq<char>) -> CommitView {
    CommitView {
        hash,
        tree_hash: Seq::<char>::empty(),
        parent_hash: None,
        message: Seq::<char>::empty(),
        author_name: Seq::<char>::empty(),
        author_email: Seq::<char>::empty(),
    }
}

/// Where the text after `word` and a space starts, if `chars` start so.
fn after_word(chars: &Vec<char>, word: &str) -> (start: Option<usize>)
    ensures
        match start {
            Some(at) => starts_with(chars@, word@ + seq![' ']) && at == word@.len() + 1,
            None => !starts_with(chars@, word@ + seq![' ']),
        },
{
    let expected = chars_of(word);
    let ghost prefix = word@ + seq![' '];
    if chars.len() <= expected.len() {
        return None;
    }
    let mut i: usize = 0;
    while i < expected.len()
        invariant
            i <= expected@.len() < chars@.len(),
            expected@ == word@,
            prefix == word@ + seq![' '],
            forall|k: int| 0 <= k < i ==> chars@[k] == expected@[k],
        decreases expected@.len() - i,
    {
        if chars[i] != expected[i] {
            assert(chars@.take(prefix.len() as int)[i as int] != prefix[i as int]);
            return None;
        }
        i += 1;
    }
    if chars[i] != ' ' {
        assert(chars@.take(prefix.len() as int)[i as int] != prefix[i as int]);
        return None;
    }
    assert(chars@.take(prefix.len() as int) == prefix);
    Some(i + 1)
}

/// The name and the e-mail address that stand in `chars` from `start` on.
fn parse_author(chars: &Vec<char>, start: usize) -> (parts: Option<(String, String)>)
    requires
        start <= chars@.len(),
    ensures
        match author_parts(chars@.skip(start as int)) {
            Some((name, email)) => parts.is_some() && parts.unwrap().0@ == name
                && parts.unwrap().1@ == email,
            None => parts.is_none(),
        },
{
    let ghost text = chars@.skip(start as int);
    let mut end: usize = chars.len();
    assert(text.take(end - start) == text);
    while end - start >= 2 && !(chars[end - 2] == ' ' && chars[end - 1] == '<')
        invariant
            start <= end <= chars@.len(),
            text == chars@.skip(start as int),
            last_open(text) == last_open(text.take(end - start)),
        decreases end,
    {
        assert(text.take(end - start).drop_last() == text.take(end - start - 1));
        end -= 1;
    }
    if end - start < 2 {
        return None;
    }
    let open = end - 2;
    let ghost after = text.skip(open - start + 2);
    assert(after == chars@.skip(end as int));
    let mut close: usize = end;
    while close < chars.len() && chars[close] != '>'
        invariant
            end <= close <= chars@.len(),
            after == chars@.skip(end as int),
            forall|k: int| 0 <= k < close - end ==> after[k] != '>',
        decreases chars@.len() - close,
    {
        close += 1;
    }
    if close == chars.len() {
        proof {
            lemma_position_none(after, '>');
        }
        return None;
    }
    proof {
        lemma_position_is(after, '>', close - end);
    }
    let name = text_between(chars, start, open);
    let email = text_between(chars, end, close);
    assert(name@ == text.take(open - start));
    Some((name, email))
}

impl CommitAuthor {
    /// The author of a revision that was given none.
    pub fn default_author() -> (author: CommitAuthor)
        ensures
            author.name@ == DEFAULT_AUTHOR_NAME@,
            author.email@ == DEFAULT_AUTHOR_EMAIL@,
    {
        CommitAuthor {
            name: String::from_str(DEFAULT_AUTHOR_NAME),
            email: String::from_str(DEFAULT_AUTHOR_EMAIL),
        }
    }
}

impl Commit {
    /// The name holds no line feed, and the e-mail address holds no line
    /// feed, no `<` and no `>`.
    pub open spec fn valid_author(name: Seq<char>, email: Seq<char>) -> bool {
        &&& !name.contains('\n')
        &&& !email.contains('\n')
        &&& !email.contains('<')
        &&& !email.contains('>')
    }

    /// What `new` makes of its arguments: `InvalidAddress` where the
    /// snapshot or the parent is no address, else `InvalidField` where the
    /// author is none that can be stored or the message holds NUL, else
    /// `TooLarge` where the encoding is longer than SHA-1 can digest, else
    /// the revision with the given fields, and with the default author where
    /// none is given, under the address of its encoding.
    pub open spec fn built(
        tree_hash: Seq<char>,
        parent_hash: Option<Seq<char>>,
        message: Seq<char>,
        author: Option<CommitAuthor>,
    ) -> Result<CommitView, StoreError> {
        let fields = CommitView {
            hash: Seq::<char>::empty(),
            tree_hash,
            parent_hash,
            message,
            author_name: match author {
                Some(a) => a.name@,
                None => DEFAULT_AUTHOR_NAME@,
            },
            author_email: match author {
                Some(a) => a.email@,
                None => DEFAULT_AUTHOR_EMAIL@,
            },
        };
        let data = canonical(HEADER_PREFIX@, encode_utf8(payload_text(fields)));
        if !is_address(tree_hash) || (parent_hash matches Some(parent) && !is_address(parent)) {
            Err(StoreError::InvalidAddress)
        } else if !Commit::valid_author(fields.author_name, fields.author_email)
            || message.contains('\0') {
            Err(StoreError::InvalidField)
        } else if data.len() > MAX_DIGEST_INPUT {
            Err(StoreError::TooLarge)
        } else {
            Ok(CommitView { hash: address_of(data), ..fields })
        }
    }

    /// The revision of the snapshot `tree_hash` after `parent_hash`, with the
    /// given message and author, under the address of its encoding.
    pub fn new(
        tree_hash: &String,
        parent_hash: &Option<String>,
        message: &String,
        author: Option<CommitAuthor>,
    ) -> (commit: Result<Commit, StoreError>)
        ensures
            match Commit::built(tree_hash@, text_of(*parent_hash), message@, author) {
                Ok(v) => commit.is_ok() && commit.unwrap()@ == v && is_address(v.hash)
                    && plain_fields(v),
                Err(e) => commit == Err::<Commit, StoreError>(e),
            },
    {
        let author = match author {
            Some(author) => author,
            None => CommitAuthor::default_author(),
        };
        if !is_valid_address(tree_hash.as_str()) {
            return Err(StoreError::InvalidAddress);
        }
        let parent_hash = match parent_hash {
            Some(parent) => {
                if !is_valid_address(parent.as_str()) {
                    return Err(StoreError::InvalidAddress);
                }
                Some(parent.clone())
            },
            None => None,
        };
        if contains_char(author.name.as_str(), '\n') || contains_char(author.email.as_str(), '\n')
            || contains_char(author.email.as_str(), '<') || contains_char(
            author.email.as_str(),
            '>',
        ) || contains_char(message.as_str(), '\0') {
            return Err(StoreError::InvalidField);
        }
        let mut commit = Commit {
            base: GitObjectBase { hash: String::new() },
            tree_hash: tree_hash.clone(),
            parent_hash,
            message: message.clone(),
            author,
        };
        let data = commit.compute_object_data();
        if data.len() as u64 > MAX_DIGEST_INPUT {
            return Err(StoreError::TooLarge);
        }
        commit.base.hash = compute_sha1_from_bytes(data.as_slice());
        proof {
            lemma_valid_fields_plain(commit@);
        }
        Ok(commit)
    }

    /// The payload as text.
    pub fn payload_string(&self) -> (text: String)
        ensures
            text@ == payload_text(self@),
    {
        proof {
            reveal_strlit(" ");
            reveal_strlit("\n");
            reveal_strlit(" <");
            reveal_strlit(">\n\n");
        }
        let mut text = String::from_str(tree::HEADER_PREFIX);
        text.append(" ");
        text.append(self.tree_hash.as_str());
        text.append("\n");
        match &self.parent_hash {
            Some(parent) => {
                text.append(PARENT_PREFIX);
                text.append(" ");
                text.append(parent.as_str());
                text.append("\n");
            },
            None => {
                assert(text@ =~= tree::HEADER_PREFIX@ + seq![' '] + self@.tree_hash + seq!['\n']
                    + parent_line(self@.parent_hash));
            },
        }
        text.append(AUTHOR_PREFIX);
        text.append(" ");
        text.append(self.author.name.as_str());
        text.append(" <");
        text.append(self.author.email.as_str());
        text.append(">\n\n");
        text.append(self.message.as_str());
        text.append("\n");
        text
    }
}

impl GitObject for Commit {
    open spec fn address(&self) -> Seq<char> {
        self.base.hash@
    }

    open spec fn tag(&self) -> Seq<char> {
        HEADER_PREFIX@
    }

    open spec fn encodable(&self) -> bool {
        true
    }

    open spec fn payload(&self) -> Seq<u8> {
        encode_utf8(payload_text(self@))
    }

    open spec fn decoded(hash: Seq<char>, content: Seq<u8>) -> Result<CommitView, DecodeError> {
        parse_fields(content, no_fields(hash))
    }

    fn get_hash(&self) -> (hash: &str) {
        self.base.hash.as_str()
    }

    fn get_header_prefix(&self) -> (prefix: &'static str) {
        HEADER_PREFIX
    }

    fn compute_size(&self) -> (size: usize) {
        self.payload_string().as_str().as_bytes().len()
    }

    fn compute_object_data(&self) -> (data: Vec<u8>) {
        encode_object(HEADER_PREFIX, self.payload_string().as_str().as_bytes())
    }

    fn from_object_file(hash: &str, content: &[u8]) -> (object: Result<Commit, DecodeError>) {
        let mut commit = Commit {
            base: GitObjectBase { hash: hash.to_owned() },
            tree_hash: String::new(),
            parent_hash: None,
            message: String::new(),
            author: CommitAuthor { name: String::new(), email: String::new() },
        };
        let mut idx: usize = 0;
        assert(content@.skip(0) == content@);
        while idx < content.len()
            invariant
                idx <= content@.len(),
                parse_fields(content@, no_fields(hash@)) == parse_fields(
                    content@.skip(idx as int),
                    commit@,
                ),
            decreases content@.len() - idx,
        {
            let ghost remaining = content@.skip(idx as int);
            proof {
                lemma_position(remaining, 0x0a);
            }
            let line_end = match find_byte(content, idx, 0x0a) {
                Some(line_end) => line_end,
                None => { return Err(DecodeError::Truncated); },
            };
            let line_bytes = slice_subrange(content, idx, line_end);
            assert(line_bytes@ == remaining.take(line_end - idx));
            assert(content@.skip(line_end + 1) == remaining.skip(line_end - idx + 1));
            let line = match utf8_text(line_bytes) {
                Some(line) => line,
                None => { return Err(DecodeError::InvalidEncoding); },
            };
            if line.is_empty() {
                let length = content.len();
                let last = if length > line_end + 1 && content[length - 1] == 0x0a {
                    length - 1
                } else {
                    length
                };
                let rest = slice_subrange(content, line_end + 1, last);
                assert(rest@ == message_bytes(content@.skip(line_end + 1)));
                match utf8_text(rest) {
                    Some(message) => {
                        commit.message = message.to_owned();
                        return Ok(commit);
                    },
                    None => { return Err(DecodeError::InvalidEncoding); },
                }
            }
            let parts = split_whitespace(line);
            let chars = chars_of(line);
            if parts.len() == 2 && same_text(parts[0].as_str(), tree::HEADER_PREFIX) {
                commit.tree_hash = parts[1].clone();
            } else if parts.len() == 2 && same_text(parts[0].as_str(), PARENT_PREFIX) {
                commit.parent_hash = Some(parts[1].clone());
            } else {
                let author = match after_word(&chars, AUTHOR_PREFIX) {
                    Some(start) => parse_author(&chars, start),
                    None => None,
                };
                match author {
                    Some((name, email)) => {
                        commit.author.name = name;
                        commit.author.email = email;
                    },
                    None => { return Err(DecodeError::UnknownField); },
                }
            }
            idx = line_end + 1;
        }
        Ok(commit)
    }
}

/// What decoding makes of a first line that is not empty and holds no line
/// feed, and of the text after it.
pub proof fn lemma_parse_line(line: Seq<char>, rest: Seq<char>, fields: CommitView)
    requires
        line.len() > 0,
        forall|i: int| 0 <= i < line.len() ==> #[trigger] line[i] != '\n',
    ensures
        parse_fields(encode_utf8(line + seq!['\n'] + rest), fields) == match apply_field(
            fields,
            line,
        ) {
            None => Err::<CommitView, DecodeError>(DecodeError::UnknownField),
            Some(next) => parse_fields(encode_utf8(rest), next),
        },
{
    let content = encode_utf8(line + seq!['\n'] + rest);
    let head = encode_utf8(line);
    let tail = encode_utf8(rest);
    lemma_encode_utf8_concat(line + seq!['\n'], rest);
    lemma_encode_utf8_concat(line, seq!['\n']);
    lemma_encode_utf8_single('\n');
    lemma_position_after_text(line, '\n', tail);
    assert(content.take(head.len() as int) == head);
    assert(content.skip(head.len() as int + 1) == tail);
    encode_utf8_valid_utf8(line);
    encode_utf8_decode_utf8(line);
}

/// What decoding makes of the blank line and the message with its line feed:
/// the message.
pub proof fn lemma_parse_message(message: Seq<char>, fields: CommitView)
    ensures
        parse_fields(encode_utf8(seq!['\n'] + message + seq!['\n']), fields) == Ok::<
            CommitView,
            DecodeError,
        >(CommitView { message, ..fields }),
{
    let content = encode_utf8(seq!['\n'] + message + seq!['\n']);
    let body = encode_utf8(message);
    lemma_encode_utf8_concat(seq!['\n'] + message, seq!['\n']);
    lemma_encode_utf8_concat(seq!['\n'], message);
    lemma_encode_utf8_single('\n');
    lemma_position_is(content, 0x0au8, 0);
    let rest = content.skip(1);
    assert(rest == body + seq![0x0au8]);
    assert(rest.drop_last() == body);
    encode_utf8_valid_utf8(message);
    encode_utf8_decode_utf8(message);
}

/// The last space that a `<` follows is the one after which no other stands.
pub proof fn lemma_last_open_is(text: Seq<char>, open: int)
    requires
        0 <= open < text.len() - 1,
        text[open] == ' ',
        text[open + 1] == '<',
        forall|j: int| open < j < text.len() - 1 ==> !(text[j] == ' ' && #[trigger] text[j + 1] == '<'),
    ensures
        last_open(text) == Some(open),
    decreases text.len(),
{
    if open != text.len() - 2 {
        let shorter = text.drop_last();
        assert(!(text[text.len() - 2] == ' ' && text[text.len() - 2 + 1] == '<'));
        assert forall|j: int| open < j < shorter.len() - 1 implies !(shorter[j] == ' '
            && #[trigger] shorter[j + 1] == '<') by {
            assert(shorter[j + 1] == text[j + 1]);
        }
        lemma_last_open_is(shorter, open);
    }
}

/// A name and an e-mail address without `<` and `>` come back out of what
/// stands after `author ` in the line of the author.
pub proof fn lemma_author_parts(name: Seq<char>, email: Seq<char>)
    requires
        forall|i: int| 0 <= i < email.len() ==> #[trigger] email[i] != '<' && email[i] != '>',
    ensures
        author_parts(name + seq![' ', '<'] + email + seq!['>']) == Some((name, email)),
{
    let text = name + seq![' ', '<'] + email + seq!['>'];
    let open = name.len() as int;
    assert forall|j: int| open < j < text.len() - 1 implies !(text[j] == ' '
        && #[trigger] text[j + 1] == '<') by {
        if j + 1 < open + 2 + email.len() {
            assert(text[j + 1] == email[j + 1 - open - 2]);
        }
    }
    lemma_last_open_is(text, open);
    let after = text.skip(open + 2);
    assert(after == email + seq!['>']);
    lemma_position_is(after, '>', email.len() as int);
}

/// Fields that decoding recovers: the addresses are words, the name of the
/// author holds no line feed, and the e-mail address holds no line feed, no
/// `<` and no `>`.
pub open spec fn plain_fields(commit: CommitView) -> bool {
    &&& is_word(commit.tree_hash)
    &&& commit.parent_hash matches Some(parent) ==> is_word(parent)
    &&& forall|i: int|
        0 <= i < commit.author_name.len() ==> #[trigger] commit.author_name[i] != '\n'
    &&& forall|i: int|
        0 <= i < commit.author_email.len() ==> {
            let c = #[trigger] commit.author_email[i];
            c != '\n' && c != '<' && c != '>'
        }
}

/// Decoding undoes encoding: the payload of a revision with plain fields
/// decodes to the revision, under the address it is asked for under.
pub proof fn lemma_commit_round_trip(fields: CommitView, hash: Seq<char>)
    requires
        plain_fields(fields),
    ensures
        Commit::decoded(hash, encode_utf8(payload_text(fields))) == Ok::<CommitView, DecodeError>(
            CommitView { hash, ..fields },
        ),
{
    reveal_strlit("tree");
    reveal_strlit("parent");
    reveal_strlit("author");
    let start = no_fields(hash);
    let tree_line = tree::HEADER_PREFIX@ + seq![' '] + fields.tree_hash;
    let author_rest = fields.author_name + seq![' ', '<'] + fields.author_email + seq!['>'];
    let author_line = author_start() + author_rest;
    let after_author = seq!['\n'] + fields.message + seq!['\n'];
    let after_parent = author_line + seq!['\n'] + after_author;
    let after_tree = parent_line(fields.parent_hash) + after_parent;
    assert(payload_text(fields) == tree_line + seq!['\n'] + after_tree);
    // the line of the snapshot
    lemma_tokens_word_then(tree::HEADER_PREFIX@, ' ', fields.tree_hash);
    lemma_tokens_word(fields.tree_hash);
    lemma_parse_line(tree_line, after_tree, start);
    let with_tree = CommitView { tree_hash: fields.tree_hash, ..start };
    assert(apply_field(start, tree_line) == Some(with_tree));
    // the line of the parent
    let with_parent = CommitView { parent_hash: fields.parent_hash, ..with_tree };
    match fields.parent_hash {
        Some(parent) => {
            let line = PARENT_PREFIX@ + seq![' '] + parent;
            lemma_tokens_word_then(PARENT_PREFIX@, ' ', parent);
            lemma_tokens_word(parent);
            lemma_parse_line(line, after_parent, with_tree);
        },
        None => {
            assert(with_parent == with_tree);
        },
    }
    // the line of the author
    lemma_tokens_word_then(AUTHOR_PREFIX@, ' ', author_rest);
    assert(AUTHOR_PREFIX@ != tree::HEADER_PREFIX@ && AUTHOR_PREFIX@ != PARENT_PREFIX@) by {
        assert(AUTHOR_PREFIX@[0] == 'a');
    }
    assert(author_line.take(author_start().len() as int) == author_start());
    assert(author_line.skip(author_start().len() as int) == author_rest);
    lemma_author_parts(fields.author_name, fields.author_email);
    let with_author = CommitView {
        author_name: fields.author_name,
        author_email: fields.author_email,
        ..with_parent
    };
    assert forall|i: int| 0 <= i < author_line.len() implies #[trigger] author_line[i]
        != '\n' by {
        let name_end = 7 + fields.author_name.len();
        if 7 <= i < name_end {
            assert(author_line[i] == fields.author_name[i - 7]);
        } else if name_end + 2 <= i < author_line.len() - 1 {
            assert(author_line[i] == fields.author_email[i - name_end - 2]);
        }
    }
    lemma_parse_line(author_line, after_author, with_parent);
    // the blank line and the message
    lemma_parse_message(fields.message, with_author);
}

/// An address is a word.
pub proof fn lemma_address_is_word(address: Seq<char>)
    requires
        is_address(address),
    ensures
        is_word(address),
{
    assert forall|i: int| 0 <= i < address.len() implies !is_whitespace(#[trigger] address[i]) by {
        assert(is_lower_hex_digit(address[i]));
    }
}

/// The fields of a revision with addresses and with an author that can be
/// stored are plain.
pub proof fn lemma_valid_fields_plain(fields: CommitView)
    requires
        is_address(fields.tree_hash),
        fields.parent_hash matches Some(parent) ==> is_address(parent),
        Commit::valid_author(fields.author_name, fields.author_email),
    ensures
        plain_fields(fields),
{
    lemma_address_is_word(fields.tree_hash);
    if let Some(parent) = fields.parent_hash {
        lemma_address_is_word(parent);
    }
    assert forall|i: int| 0 <= i < fields.author_name.len() implies #[trigger] fields.author_name[i]
        != '\n' by {
        if fields.author_name[i] == '\n' {
            assert(fields.author_name.contains('\n'));
        }
    }
    assert forall|i: int| 0 <= i < fields.author_email.len() implies {
        let c = #[trigger] fields.author_email[i];
        c != '\n' && c != '<' && c != '>'
    } by {
        let c = fields.author_email[i];
        if c == '\n' || c == '<' || c == '>' {
            assert(fields.author_email.contains(c));
        }
    }
}

/// The default author is one that can be stored.
pub proof fn lemma_default_author_valid()
    ensures
        Commit::valid_author(DEFAULT_AUTHOR_NAME@, DEFAULT_AUTHOR_EMAIL@),
{
    reveal_strlit("unpseudo");
    reveal_strlit("unpseudo@mail.mail");
}

} // verus!
