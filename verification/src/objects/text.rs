//! Bytes and text: searching, UTF-8, and whitespace-delimited tokens.

use vstd::prelude::*;
use vstd::string::*;
use vstd::utf8::*;

verus! {

/// The index of the first `item` in `items`, if there is one.
pub open spec fn position<T>(items: Seq<T>, item: T) -> Option<int>
    decreases items.len(),
{
    if items.len() == 0 {
        None
    } else if items[0] == item {
        Some(0)
    } else {
        match position(items.drop_first(), item) {
            Some(i) => Some(i + 1),
            None => None,
        }
    }
}

/// `position` finds the least index that holds `item`, and nothing where no
/// index does.
pub proof fn lemma_position<T>(items: Seq<T>, item: T)
    ensures
        match position(items, item) {
            Some(i) => 0 <= i < items.len() && items[i] == item && forall|j: int|
                0 <= j < i ==> items[j] != item,
            None => forall|j: int| 0 <= j < items.len() ==> items[j] != item,
        },
    decreases items.len(),
{
    if items.len() != 0 && items[0] != item {
        let rest = items.drop_first();
        lemma_position(rest, item);
        match position(rest, item) {
            Some(i) => {
                assert forall|j: int| 0 <= j < i + 1 implies items[j] != item by {
                    if j > 0 {
                        assert(items[j] == rest[j - 1]);
                    }
                }
            },
            None => {
                assert forall|j: int| 0 <= j < items.len() implies items[j] != item by {
                    if j > 0 {
                        assert(items[j] == rest[j - 1]);
                    }
                }
            },
        }
    }
}

/// The least index that holds `item` is what `position` finds.
pub proof fn lemma_position_is<T>(items: Seq<T>, item: T, i: int)
    requires
        0 <= i < items.len(),
        items[i] == item,
        forall|j: int| 0 <= j < i ==> items[j] != item,
    ensures
        position(items, item) == Some(i),
{
    lemma_position(items, item);
}

/// Where no index holds `item`, `position` finds nothing.
pub proof fn lemma_position_none<T>(items: Seq<T>, item: T)
    requires
        forall|j: int| 0 <= j < items.len() ==> items[j] != item,
    ensures
        position(items, item).is_none(),
{
    lemma_position(items, item);
}

/// The index of the first `byte` at or after `start`; nothing where `start`
/// lies behind the end.
pub fn find_byte(data: &[u8], start: usize, byte: u8) -> (found: Option<usize>)
    ensures
        match found {
            Some(at) => start <= at < data@.len() && position(data@.skip(start as int), byte)
                == Some(at - start),
            None => start > data@.len() || position(data@.skip(start as int), byte).is_none(),
        },
{
    if start > data.len() {
        return None;
    }
    let ghost rest = data@.skip(start as int);
    let mut i: usize = start;
    while i < data.len()
        invariant
            start <= i <= data@.len(),
            rest == data@.skip(start as int),
            forall|j: int| 0 <= j < i - start ==> rest[j] != byte,
        decreases data@.len() - i,
    {
        if data[i] == byte {
            proof {
                lemma_position_is(rest, byte, i - start);
            }
            return Some(i);
        }
        i += 1;
    }
    proof {
        lemma_position_none(rest, byte);
    }
    None
}

/// `core::str::from_utf8`: the text that `bytes` encode, where they are valid
/// UTF-8, and nothing where they are not.
#[verifier::external_body]
pub(crate) fn utf8_text(bytes: &[u8]) -> (text: Option<&str>)
    ensures
        valid_utf8(bytes@) ==> text.is_some() && text.unwrap()@ == decode_utf8(bytes@),
        !valid_utf8(bytes@) ==> text.is_none(),
{
    core::str::from_utf8(bytes).ok()
}

/// The encoding of two texts in a row is the two encodings in a row.
pub proof fn lemma_encode_utf8_concat(a: Seq<char>, b: Seq<char>)
    ensures
        encode_utf8(a + b) == encode_utf8(a) + encode_utf8(b),
    decreases a.len(),
{
    if a.len() == 0 {
        assert(encode_utf8(a) + encode_utf8(b) == encode_utf8(b));
    } else {
        lemma_encode_utf8_concat(a.drop_first(), b);
        assert((a + b).drop_first() == a.drop_first() + b);
    }
}

/// The encoding of a character below 128 is the one byte of that value; the
/// encoding of any other character holds no byte below 128.
pub proof fn lemma_encode_scalar_bytes(c: char)
    ensures
        (c as u32) < 128 ==> encode_scalar(c as u32) == seq![c as u8] && (c as u8) as u32
            == c as u32,
        (c as u32) >= 128 ==> forall|i: int|
            0 <= i < encode_scalar(c as u32).len() ==> #[trigger] encode_scalar(c as u32)[i]
                >= 128,
{
    let v = c as u32;
    if v < 128 {
        assert(leading_byte_width_1(v) == v as u8) by (bit_vector)
            requires
                v < 128,
        ;
    } else {
        assert(0xC0 | ((v >> 6) & 0x1F) as u8 >= 128) by (bit_vector);
        assert(0xE0 | ((v >> 12) & 0x0F) as u8 >= 128) by (bit_vector);
        assert(0xF0 | ((v >> 18) & 0x7) as u8 >= 128) by (bit_vector);
        assert(0x80 | (v & 0x3F) as u8 >= 128) by (bit_vector);
        assert(0x80 | ((v >> 6) & 0x3F) as u8 >= 128) by (bit_vector);
        assert(0x80 | ((v >> 12) & 0x3F) as u8 >= 128) by (bit_vector);
    }
}

/// Two characters of one code are one character.
pub proof fn lemma_char_code(c: char, d: char)
    ensures
        c as u32 == d as u32 ==> c == d,
{
}

/// A byte below 128 stands in the encoding of a text only where the text
/// holds the character of that value.
pub proof fn lemma_encode_utf8_ascii_absent(text: Seq<char>, byte: u8)
    requires
        byte < 128,
        forall|j: int| 0 <= j < text.len() ==> (#[trigger] text[j]) as u32 != byte as u32,
    ensures
        forall|i: int| 0 <= i < encode_utf8(text).len() ==> #[trigger] encode_utf8(text)[i] != byte,
    decreases text.len(),
{
    if text.len() != 0 {
        let rest = text.drop_first();
        assert forall|j: int| 0 <= j < rest.len() implies (#[trigger] rest[j]) as u32
            != byte as u32 by {
            assert(rest[j] == text[j + 1]);
        }
        lemma_encode_utf8_ascii_absent(rest, byte);
        lemma_encode_scalar_bytes(text[0]);
        let first = encode_scalar(text[0] as u32);
        assert forall|i: int| 0 <= i < encode_utf8(text).len() implies #[trigger] encode_utf8(
            text,
        )[i] != byte by {
            if i < first.len() {
                if (text[0] as u32) < 128 {
                    assert(text[0] as u32 != byte as u32);
                } else {
                    assert(first[i] >= 128);
                }
            } else {
                assert(encode_utf8(text)[i] == encode_utf8(rest)[i - first.len()]);
            }
        }
    }
}

/// The encoding of the one character `c` below 128 is the one byte `c`.
pub proof fn lemma_encode_utf8_single(c: char)
    requires
        (c as u32) < 128,
    ensures
        encode_utf8(seq![c]) == seq![c as u8],
{
    lemma_encode_scalar_bytes(c);
    assert(encode_utf8(seq![c]) =~= encode_scalar(c as u32) + encode_utf8(seq![c].drop_first()));
}

/// Where a text without the character `mark`, which is below 128, is
/// encoded and the byte `mark` follows, that is the first byte `mark`.
pub proof fn lemma_position_after_text(before: Seq<char>, mark: char, after: Seq<u8>)
    requires
        (mark as u32) < 128,
        forall|i: int| 0 <= i < before.len() ==> #[trigger] before[i] != mark,
    ensures
        position(encode_utf8(before) + seq![mark as u8] + after, mark as u8) == Some(
            encode_utf8(before).len() as int,
        ),
{
    let bytes = encode_utf8(before);
    let data = bytes + seq![mark as u8] + after;
    lemma_encode_scalar_bytes(mark);
    assert forall|j: int| 0 <= j < before.len() implies (#[trigger] before[j]) as u32 != (
    mark as u8) as u32 by {
        lemma_char_code(before[j], mark);
    }
    lemma_encode_utf8_ascii_absent(before, mark as u8);
    assert forall|j: int| 0 <= j < bytes.len() implies data[j] != mark as u8 by {
        assert(data[j] == bytes[j]);
    }
    lemma_position_is(data, mark as u8, bytes.len() as int);
}

/// Whether two texts are the same.
pub fn same_text(a: &str, b: &str) -> (same: bool)
    ensures
        same == (a@ == b@),
{
    String::from_str(a) == String::from_str(b)
}

/// The characters with the Unicode property `White_Space`.
pub open spec fn is_whitespace(c: char) -> bool {
    let u = c as u32;
    ||| 0x09 <= u <= 0x0d
    ||| u == 0x20
    ||| u == 0x85
    ||| u == 0xa0
    ||| u == 0x1680
    ||| 0x2000 <= u <= 0x200a
    ||| u == 0x2028
    ||| u == 0x2029
    ||| u == 0x202f
    ||| u == 0x205f
    ||| u == 0x3000
}

/// Whether `c` is whitespace.
pub fn is_whitespace_char(c: char) -> (white: bool)
    ensures
        white == is_whitespace(c),
{
    let u = c as u32;
    (0x09 <= u && u <= 0x0d) || u == 0x20 || u == 0x85 || u == 0xa0 || u == 0x1680 || (0x2000 <= u
        && u <= 0x200a) || u == 0x2028 || u == 0x2029 || u == 0x202f || u == 0x205f || u == 0x3000
}

/// How many characters at the start of `text` are whitespace (`white`), or are
/// not (`!white`).
pub open spec fn run_length(text: Seq<char>, white: bool) -> nat
    decreases text.len(),
{
    if text.len() > 0 && is_whitespace(text[0]) == white {
        1 + run_length(text.drop_first(), white)
    } else {
        0
    }
}

/// A run ends within the text, at a character of the other kind.
pub proof fn lemma_run_length(text: Seq<char>, white: bool)
    ensures
        run_length(text, white) <= text.len(),
        forall|j: int| 0 <= j < run_length(text, white) ==> is_whitespace(#[trigger] text[j]) == white,
        run_length(text, white) < text.len() ==> is_whitespace(text[run_length(text, white) as int])
            != white,
    decreases text.len(),
{
    if text.len() > 0 && is_whitespace(text[0]) == white {
        let rest = text.drop_first();
        lemma_run_length(rest, white);
        assert forall|j: int| 0 <= j < run_length(text, white) implies is_whitespace(
            #[trigger] text[j],
        ) == white by {
            if j > 0 {
                assert(text[j] == rest[j - 1]);
            }
        }
    }
}

/// A stretch of one kind that ends the text, or that a character of the other
/// kind follows, is the run at the start.
pub proof fn lemma_run_length_is(text: Seq<char>, white: bool, n: int)
    requires
        0 <= n <= text.len(),
        forall|j: int| 0 <= j < n ==> is_whitespace(#[trigger] text[j]) == white,
        n < text.len() ==> is_whitespace(text[n]) != white,
    ensures
        run_length(text, white) == n,
{
    lemma_run_length(text, white);
    let r = run_length(text, white) as int;
    if r < n {
        assert(is_whitespace(text[r]) == white);
    } else if r > n {
        assert(is_whitespace(text[n]) == white);
    }
}

/// The maximal stretches of `text` that hold no whitespace, in order.
pub open spec fn tokens(text: Seq<char>) -> Seq<Seq<char>>
    decreases text.len(),
{
    let rest = text.skip(run_length(text, true) as int);
    let len = run_length(rest, false);
    if len == 0 {
        Seq::<Seq<char>>::empty()
    } else {
        proof {
            lemma_run_length(text, true);
            lemma_run_length(rest, false);
        }
        seq![rest.take(len as int)] + tokens(rest.skip(len as int))
    }
}

/// A word: text that is not empty and holds no whitespace.
pub open spec fn is_word(word: Seq<char>) -> bool {
    &&& word.len() > 0
    &&& forall|i: int| 0 <= i < word.len() ==> !is_whitespace(#[trigger] word[i])
}

/// Whitespace at the start of a text changes nothing of its tokens.
pub proof fn lemma_tokens_after_space(space: char, rest: Seq<char>)
    requires
        is_whitespace(space),
    ensures
        tokens(seq![space] + rest) == tokens(rest),
{
    let text = seq![space] + rest;
    assert(text[0] == space);
    assert(text.drop_first() == rest);
    let skipped = run_length(rest, true) as int;
    lemma_run_length(rest, true);
    assert(text.skip(skipped + 1) == rest.skip(skipped));
}

/// The tokens of a word, whitespace and more text are the word and the
/// tokens of the other text.
pub proof fn lemma_tokens_word_then(word: Seq<char>, space: char, rest: Seq<char>)
    requires
        is_word(word),
        is_whitespace(space),
    ensures
        tokens(word + seq![space] + rest) == seq![word] + tokens(rest),
{
    let text = word + seq![space] + rest;
    let n = word.len() as int;
    assert(text[0] == word[0]);
    lemma_run_length_is(text, true, 0);
    assert(text.skip(0) == text);
    assert forall|j: int| 0 <= j < n implies is_whitespace(#[trigger] text[j]) == false by {
        assert(text[j] == word[j]);
    }
    lemma_run_length_is(text, false, n);
    assert(text.take(n) == word);
    assert(text.skip(n) == seq![space] + rest);
    lemma_tokens_after_space(space, rest);
}

/// The only token of a word is the word.
pub proof fn lemma_tokens_word(word: Seq<char>)
    requires
        is_word(word),
    ensures
        tokens(word) == seq![word],
{
    let n = word.len() as int;
    lemma_run_length_is(word, true, 0);
    lemma_run_length_is(word, false, n);
    assert(word.take(n) == word);
    let rest = word.skip(n);
    assert(rest.len() == 0);
    assert(tokens(rest) == Seq::<Seq<char>>::empty());
}

/// The text of each string.
pub open spec fn texts(strings: Seq<String>) -> Seq<Seq<char>> {
    strings.map_values(|s: String| s@)
}

/// `String::push`: the text with `c` after it.
#[verifier::external_body]
pub(crate) fn push_char(text: &mut String, c: char)
    ensures
        final(text)@ == old(text)@.push(c),
{
    text.push(c)
}

/// The characters of `line`.
pub fn chars_of(line: &str) -> (chars: Vec<char>)
    ensures
        chars@ == line@,
{
    let mut chars: Vec<char> = Vec::new();
    for c in it: line.chars()
        invariant
            it.seq() == line@,
            chars@ == it.seq().take(it.index() as int),
    {
        chars.push(c);
    }
    chars
}

/// Whether `text` holds the character `c`.
pub fn contains_char(text: &str, c: char) -> (found: bool)
    ensures
        found == text@.contains(c),
{
    let chars = chars_of(text);
    let mut i: usize = 0;
    while i < chars.len()
        invariant
            i <= chars@.len(),
            chars@ == text@,
            forall|k: int| 0 <= k < i ==> chars@[k] != c,
        decreases chars@.len() - i,
    {
        if chars[i] == c {
            return true;
        }
        i += 1;
    }
    false
}

/// The text of the characters from `start` up to `end`.
pub fn text_between(chars: &Vec<char>, start: usize, end: usize) -> (text: String)
    requires
        start <= end <= chars@.len(),
    ensures
        text@ == chars@.subrange(start as int, end as int),
{
    let mut text = String::new();
    let mut i: usize = start;
    while i < end
        invariant
            start <= i <= end <= chars@.len(),
            text@ == chars@.subrange(start as int, i as int),
        decreases end - i,
    {
        push_char(&mut text, chars[i]);
        i += 1;
    }
    text
}

/// The end of the run of one kind that starts at `start`.
fn skip_run(chars: &Vec<char>, start: usize, white: bool) -> (end: usize)
    requires
        start <= chars@.len(),
    ensures
        start <= end <= chars@.len(),
        end - start == run_length(chars@.skip(start as int), white),
{
    let mut i: usize = start;
    while i < chars.len() && is_whitespace_char(chars[i]) == white
        invariant
            start <= i <= chars@.len(),
            forall|j: int| start <= j < i ==> is_whitespace(#[trigger] chars@[j]) == white,
        decreases chars@.len() - i,
    {
        i += 1;
    }
    proof {
        let rest = chars@.skip(start as int);
        assert forall|j: int| 0 <= j < i - start implies is_whitespace(#[trigger] rest[j])
            == white by {
            assert(rest[j] == chars@[start + j]);
        }
        lemma_run_length_is(rest, white, i - start);
    }
    i
}

/// The whitespace-delimited tokens of `line`, in order.
pub fn split_whitespace(line: &str) -> (parts: Vec<String>)
    ensures
        texts(parts@) == tokens(line@),
{
    let chars = chars_of(line);
    let mut parts: Vec<String> = Vec::new();
    let mut i: usize = 0;
    assert(chars@.skip(0) == chars@);
    loop
        invariant
            i <= chars@.len(),
            chars@ == line@,
            tokens(chars@) == texts(parts@) + tokens(chars@.skip(i as int)),
        decreases chars@.len() - i,
    {
        let start = skip_run(&chars, i, true);
        let end = skip_run(&chars, start, false);
        let ghost text = chars@.skip(i as int);
        let ghost rest = text.skip(run_length(text, true) as int);
        assert(rest == chars@.skip(start as int));
        if end == start {
            return parts;
        }
        let token = text_between(&chars, start, end);
        assert(token@ == rest.take(end - start));
        assert(rest.skip(end - start) == chars@.skip(end as int));
        parts.push(token);
        i = end;
    }
}

} // verus!

