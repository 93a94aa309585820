//! The entries of the log, and their text.
//!
//! An entry is written as one JSON value: `{"Set":[<key>,<value>]}` or
//! `{"Remove":<key>}`, where `<key>` and `<value>` are JSON strings. A
//! partition is a run of such values. White space may stand between the
//! tokens of an entry and between entries.

use crate::error::{KvsError, Result, SerdeErrorKind};
use crate::json::{
    agree, bytes_equal, find_string_end, has_byte, json_quote, lemma_parse_string_agree,
    lemma_plain_string_end, lemma_quoted_at, lemma_skip_ws_agree, lemma_skip_ws_bounds,
    lemma_string_body_end_agree, lemma_string_body_end_bounds, parse_string, push_bytes, quotable,
    quote_checked, read_string, skip_white_space, skip_ws, string_end, BACKSLASH, COLON, COMMA,
    LBRACE, LBRACKET, QUOTE, RBRACE, RBRACKET,
};
use vstd::prelude::*;
use vstd::slice::slice_subrange;

verus! {

/// One change to the store.
#[derive(Debug, Clone, PartialEq, Eq)]
pub enum Entry<K, V> {
    /// The key is given the value. In the files of the log this entry has
    /// the name `Set`.
    Put(K, V),
    /// The key is taken out.
    Remove(K),
}

/// The entries that the store writes.
pub type KvsEntry = Entry<String, String>;

/// What an entry of the store says.
pub type EntryView = Entry<Seq<char>, Seq<char>>;

impl<K: View, V: View> View for Entry<K, V> {
    type V = Entry<K::V, V::V>;

    open spec fn view(&self) -> Entry<K::V, V::V> {
        match self {
            Entry::Put(k, v) => Entry::Put(k@, v@),
            Entry::Remove(k) => Entry::Remove(k@),
        }
    }
}

/// The token `"Set"`.
pub open spec fn set_tag() -> Seq<u8> {
    seq![0x22u8, 0x53u8, 0x65u8, 0x74u8, 0x22u8]
}

/// The token `"Remove"`.
pub open spec fn remove_tag() -> Seq<u8> {
    seq![0x22u8, 0x52u8, 0x65u8, 0x6du8, 0x6fu8, 0x76u8, 0x65u8, 0x22u8]
}

/// An entry found in a run of bytes.
pub struct ParsedEntry {
    /// What the entry says.
    pub entry: EntryView,
    /// Where its opening brace stands.
    pub start: int,
    /// The position after its closing brace.
    pub end: int,
}

/// What follows `"Set":`, from `pos` on, in the entry that starts at
/// `start`: `[`, the key, `,`, the value, `]` and `}`.
pub open spec fn parse_set_body(b: Seq<u8>, start: int, pos: int) -> Option<ParsedEntry> {
    if !has_byte(b, pos, LBRACKET) {
        None
    } else {
        match parse_string(b, skip_ws(b, pos + 1)) {
            None => None,
            Some((key, key_end)) => {
                let comma = skip_ws(b, key_end);
                if !has_byte(b, comma, COMMA) {
                    None
                } else {
                    match parse_string(b, skip_ws(b, comma + 1)) {
                        None => None,
                        Some((value, value_end)) => {
                            let close = skip_ws(b, value_end);
                            let brace = skip_ws(b, close + 1);
                            if has_byte(b, close, RBRACKET) && has_byte(b, brace, RBRACE) {
                                Some(
                                    ParsedEntry {
                                        entry: Entry::Put(key, value),
                                        start,
                                        end: brace + 1,
                                    },
                                )
                            } else {
                                None
                            }
                        },
                    }
                }
            },
        }
    }
}

/// What follows `"Remove":`, from `pos` on, in the entry that starts at
/// `start`: the key and `}`.
pub open spec fn parse_remove_body(b: Seq<u8>, start: int, pos: int) -> Option<ParsedEntry> {
    match parse_string(b, pos) {
        None => None,
        Some((key, key_end)) => {
            let brace = skip_ws(b, key_end);
            if has_byte(b, brace, RBRACE) {
                Some(ParsedEntry { entry: Entry::Remove(key), start, end: brace + 1 })
            } else {
                None
            }
        },
    }
}

/// The entry that is met first from `pos` on, after white space, or `None`
/// where the bytes there are not an entry.
#[verifier::opaque]
pub open spec fn parse_entry(b: Seq<u8>, pos: int) -> Option<ParsedEntry> {
    let start = skip_ws(b, pos);
    if !has_byte(b, start, LBRACE) {
        None
    } else {
        let tag_start = skip_ws(b, start + 1);
        match string_end(b, tag_start) {
            None => None,
            Some(tag_end) => {
                let tag = b.subrange(tag_start, tag_end);
                let colon = skip_ws(b, tag_end);
                if !has_byte(b, colon, COLON) {
                    None
                } else if tag == set_tag() {
                    parse_set_body(b, start, skip_ws(b, colon + 1))
                } else if tag == remove_tag() {
                    parse_remove_body(b, start, skip_ws(b, colon + 1))
                } else {
                    None
                }
            },
        }
    }
}

/// Whether `chunk` is the text of `entry` and nothing else: no white space
/// before it and nothing after it.
pub open spec fn is_entry_chunk(chunk: Seq<u8>, entry: EntryView) -> bool {
    parse_entry(chunk, 0) == Some(ParsedEntry { entry, start: 0, end: chunk.len() as int })
}

/// The bytes `{"Set":[`.
pub open spec fn set_open() -> Seq<u8> {
    seq![LBRACE] + set_tag() + seq![COLON, LBRACKET]
}

/// The bytes `{"Remove":`.
pub open spec fn remove_open() -> Seq<u8> {
    seq![LBRACE] + remove_tag() + seq![COLON]
}

/// The text that is written for `entry`, without any white space, or `None`
/// where one of its strings cannot be written.
pub open spec fn entry_text(entry: EntryView) -> Option<Seq<u8>> {
    match entry {
        Entry::Put(key, value) => match (json_quote(key), json_quote(value)) {
            (Some(k), Some(v)) => Some(set_open() + k + seq![COMMA] + v + seq![RBRACKET, RBRACE]),
            _ => None,
        },
        Entry::Remove(key) => match json_quote(key) {
            Some(k) => Some(remove_open() + k + seq![RBRACE]),
            None => None,
        },
    }
}

/// The entry that gives `key` the value `value`.
pub open spec fn put(key: Seq<char>, value: Seq<char>) -> EntryView {
    Entry::Put(key, value)
}

/// The entry that takes `key` out.
pub open spec fn removal(key: Seq<char>) -> EntryView {
    Entry::Remove(key)
}

/// The text of an entry that can be written.
pub open spec fn text_of(entry: EntryView) -> Seq<u8> {
    entry_text(entry).unwrap()
}

/// Whether `entry` can be written: each of its strings can be written and
/// read back.
pub open spec fn encodable(entry: EntryView) -> bool {
    match entry {
        Entry::Put(key, value) => quotable(key) && quotable(value),
        Entry::Remove(key) => quotable(key),
    }
}

/// Reading an entry begins with skipping white space, so it gives the same
/// from every position of a stretch of white space.
pub proof fn lemma_parse_entry_skips(b: Seq<u8>, pos: int, mid: int)
    requires
        skip_ws(b, pos) == skip_ws(b, mid),
    ensures
        parse_entry(b, pos) == parse_entry(b, mid),
{
    reveal(parse_entry);
}

/// A string token ends after where it starts, and within the bytes.
pub proof fn lemma_parse_string_bounds(b: Seq<u8>, pos: int)
    ensures
        parse_string(b, pos) matches Some(r) ==> 0 <= pos < r.1 <= b.len(),
{
    lemma_string_body_end_bounds(b, pos + 1);
}

/// An entry lies within the bytes it was found in, and is not empty.
pub proof fn lemma_parse_entry_bounds(b: Seq<u8>, pos: int)
    ensures
        parse_entry(b, pos) matches Some(p) ==> pos <= p.start < p.end <= b.len() && p.start
            == skip_ws(b, pos) && 0 <= p.start,
{
    reveal(parse_entry);
    lemma_skip_ws_bounds(b, pos);
    let start = skip_ws(b, pos);
    if has_byte(b, start, LBRACE) {
        let tag_start = skip_ws(b, start + 1);
        lemma_skip_ws_bounds(b, start + 1);
        lemma_string_body_end_bounds(b, tag_start + 1);
        if let Some(tag_end) = string_end(b, tag_start) {
            let colon = skip_ws(b, tag_end);
            lemma_skip_ws_bounds(b, tag_end);
            let body = skip_ws(b, colon + 1);
            lemma_skip_ws_bounds(b, colon + 1);
            if has_byte(b, colon, COLON) {
                lemma_skip_ws_bounds(b, body + 1);
                lemma_parse_string_bounds(b, skip_ws(b, body + 1));
                lemma_parse_string_bounds(b, body);
                if let Some((_, key_end)) = parse_string(b, body) {
                    lemma_skip_ws_bounds(b, key_end);
                }
                if let Some((_, key_end)) = parse_string(b, skip_ws(b, body + 1)) {
                    let comma = skip_ws(b, key_end);
                    lemma_skip_ws_bounds(b, key_end);
                    lemma_skip_ws_bounds(b, comma + 1);
                    lemma_parse_string_bounds(b, skip_ws(b, comma + 1));
                    if let Some((_, value_end)) = parse_string(b, skip_ws(b, comma + 1)) {
                        let close = skip_ws(b, value_end);
                        lemma_skip_ws_bounds(b, value_end);
                        lemma_skip_ws_bounds(b, close + 1);
                    }
                }
            }
        }
    }
}

/// What an entry says depends only on its own bytes: where two runs of bytes
/// agree on the stretch that holds an entry, the same entry is found in both.
pub proof fn lemma_parse_entry_agree(a: Seq<u8>, pa: int, b: Seq<u8>, pb: int, n: int)
    requires
        agree(a, pa, b, pb, n),
        parse_entry(a, pa) matches Some(p) && p.end <= pa + n,
    ensures
        parse_entry(b, pb) == Some(
            ParsedEntry {
                entry: parse_entry(a, pa).unwrap().entry,
                start: parse_entry(a, pa).unwrap().start - pa + pb,
                end: parse_entry(a, pa).unwrap().end - pa + pb,
            },
        ),
{
    reveal(parse_entry);
    let d = pb - pa;
    let end = parse_entry(a, pa).unwrap().end;
    lemma_parse_entry_bounds(a, pa);
    let start = skip_ws(a, pa);
    let tag_start = skip_ws(a, start + 1);
    lemma_skip_ws_bounds(a, start + 1);
    lemma_string_body_end_bounds(a, tag_start + 1);
    let tag_end = string_end(a, tag_start).unwrap();
    let colon = skip_ws(a, tag_end);
    lemma_skip_ws_bounds(a, tag_end);
    let body = skip_ws(a, colon + 1);
    lemma_skip_ws_bounds(a, colon + 1);
    let tag = a.subrange(tag_start, tag_end);
    if tag == set_tag() {
        lemma_skip_ws_bounds(a, body + 1);
        let key_start = skip_ws(a, body + 1);
        lemma_parse_string_bounds(a, key_start);
        let (key, key_end) = parse_string(a, key_start).unwrap();
        let comma = skip_ws(a, key_end);
        lemma_skip_ws_bounds(a, key_end);
        lemma_skip_ws_bounds(a, comma + 1);
        let value_start = skip_ws(a, comma + 1);
        lemma_parse_string_bounds(a, value_start);
        let (value, value_end) = parse_string(a, value_start).unwrap();
        let close = skip_ws(a, value_end);
        lemma_skip_ws_bounds(a, value_end);
        lemma_skip_ws_bounds(a, close + 1);
        let brace = skip_ws(a, close + 1);
        assert(start < tag_start < tag_end <= colon < body < key_start < key_end <= comma
            < value_start < value_end <= close < brace < end);
        lemma_skip_ws_agree(a, pa, b, pb, n, pa);
        assert(a[start] == b[start + d]);
        lemma_skip_ws_agree(a, pa, b, pb, n, start + 1);
        assert(a[tag_start] == b[tag_start + d]);
        lemma_string_body_end_agree(a, pa, b, pb, n, tag_start + 1);
        assert(string_end(b, tag_start + d) == Some(tag_end + d));
        assert(a.subrange(tag_start, tag_end) =~= b.subrange(tag_start + d, tag_end + d)) by {
            assert forall|i: int| 0 <= i < tag_end - tag_start implies a.subrange(
                tag_start,
                tag_end,
            )[i] == b.subrange(tag_start + d, tag_end + d)[i] by {
                assert(a[tag_start + i] == b[tag_start + i + d]);
            }
        }
        lemma_skip_ws_agree(a, pa, b, pb, n, tag_end);
        assert(a[colon] == b[colon + d]);
        lemma_skip_ws_agree(a, pa, b, pb, n, colon + 1);
        assert(a[body] == b[body + d]);
        lemma_skip_ws_agree(a, pa, b, pb, n, body + 1);
        lemma_parse_string_agree(a, pa, b, pb, n, key_start);
        lemma_skip_ws_agree(a, pa, b, pb, n, key_end);
        assert(a[comma] == b[comma + d]);
        lemma_skip_ws_agree(a, pa, b, pb, n, comma + 1);
        lemma_parse_string_agree(a, pa, b, pb, n, value_start);
        lemma_skip_ws_agree(a, pa, b, pb, n, value_end);
        assert(a[close] == b[close + d]);
        lemma_skip_ws_agree(a, pa, b, pb, n, close + 1);
        assert(a[brace] == b[brace + d]);
    } else {
        lemma_parse_string_bounds(a, body);
        let (key, key_end) = parse_string(a, body).unwrap();
        let brace = skip_ws(a, key_end);
        lemma_skip_ws_bounds(a, key_end);
        assert(start < tag_start < tag_end <= colon < body < key_end <= brace < end);
        lemma_skip_ws_agree(a, pa, b, pb, n, pa);
        assert(a[start] == b[start + d]);
        lemma_skip_ws_agree(a, pa, b, pb, n, start + 1);
        assert(a[tag_start] == b[tag_start + d]);
        lemma_string_body_end_agree(a, pa, b, pb, n, tag_start + 1);
        assert(string_end(b, tag_start + d) == Some(tag_end + d));
        assert(a.subrange(tag_start, tag_end) =~= b.subrange(tag_start + d, tag_end + d)) by {
            assert forall|i: int| 0 <= i < tag_end - tag_start implies a.subrange(
                tag_start,
                tag_end,
            )[i] == b.subrange(tag_start + d, tag_end + d)[i] by {
                assert(a[tag_start + i] == b[tag_start + i + d]);
            }
        }
        lemma_skip_ws_agree(a, pa, b, pb, n, tag_end);
        assert(a[colon] == b[colon + d]);
        lemma_skip_ws_agree(a, pa, b, pb, n, colon + 1);
        lemma_parse_string_agree(a, pa, b, pb, n, body);
        lemma_skip_ws_agree(a, pa, b, pb, n, key_end);
        assert(a[brace] == b[brace + d]);
    }
}

/// Whether `bytes` holds `byte` at `pos`.
fn byte_is(bytes: &[u8], pos: usize, byte: u8) -> (r: bool)
    ensures
        r == has_byte(bytes@, pos as int, byte),
        r ==> pos < usize::MAX,
{
    pos < bytes.len() && bytes[pos] == byte
}

/// Reads what follows `"Set":` in the entry that starts at `start`.
fn decode_set_body(bytes: &[u8], start: usize, pos: usize) -> (r: Option<(KvsEntry, usize, usize)>)
    requires
        start <= pos <= bytes@.len(),
    ensures
        match r {
            Some((entry, s, end)) => parse_set_body(bytes@, start as int, pos as int) == Some(
                ParsedEntry { entry: entry@, start: s as int, end: end as int },
            ) && end <= bytes@.len(),
            None => parse_set_body(bytes@, start as int, pos as int).is_none(),
        },
{
    if !byte_is(bytes, pos, LBRACKET) {
        return None;
    }
    let key_start = skip_white_space(bytes, pos + 1);
    let (key, key_end) = match read_string(bytes, key_start) {
        None => { return None; },
        Some(r) => r,
    };
    let comma = skip_white_space(bytes, key_end);
    if !byte_is(bytes, comma, COMMA) {
        return None;
    }
    let value_start = skip_white_space(bytes, comma + 1);
    let (value, value_end) = match read_string(bytes, value_start) {
        None => { return None; },
        Some(r) => r,
    };
    let close = skip_white_space(bytes, value_end);
    if !byte_is(bytes, close, RBRACKET) {
        return None;
    }
    let brace = skip_white_space(bytes, close + 1);
    if !byte_is(bytes, brace, RBRACE) {
        return None;
    }
    Some((Entry::Put(key, value), start, brace + 1))
}

/// Reads what follows `"Remove":` in the entry that starts at `start`.
fn decode_remove_body(bytes: &[u8], start: usize, pos: usize) -> (r: Option<
    (KvsEntry, usize, usize),
>)
    requires
        start <= pos <= bytes@.len(),
    ensures
        match r {
            Some((entry, s, end)) => parse_remove_body(bytes@, start as int, pos as int) == Some(
                ParsedEntry { entry: entry@, start: s as int, end: end as int },
            ) && end <= bytes@.len(),
            None => parse_remove_body(bytes@, start as int, pos as int).is_none(),
        },
{
    let (key, key_end) = match read_string(bytes, pos) {
        None => { return None; },
        Some(r) => r,
    };
    let brace = skip_white_space(bytes, key_end);
    if !byte_is(bytes, brace, RBRACE) {
        return None;
    }
    Some((Entry::Remove(key), start, brace + 1))
}

/// Reads the entry that is met first from `pos` on. Returns the entry, the
/// position of its opening brace and the position after its closing brace.
pub fn decode_entry(bytes: &[u8], pos: usize) -> (r: Option<(KvsEntry, usize, usize)>)
    requires
        pos <= bytes@.len(),
    ensures
        match r {
            Some((entry, start, end)) => parse_entry(bytes@, pos as int) == Some(
                ParsedEntry { entry: entry@, start: start as int, end: end as int },
            ) && pos <= start < end <= bytes@.len(),
            None => parse_entry(bytes@, pos as int).is_none(),
        },
{
    proof {
        reveal(parse_entry);
        lemma_parse_entry_bounds(bytes@, pos as int);
    }
    let start = skip_white_space(bytes, pos);
    if !byte_is(bytes, start, LBRACE) {
        return None;
    }
    let tag_start = skip_white_space(bytes, start + 1);
    let tag_end = match find_string_end(bytes, tag_start) {
        None => { return None; },
        Some(end) => end,
    };
    let colon = skip_white_space(bytes, tag_end);
    if !byte_is(bytes, colon, COLON) {
        return None;
    }
    let body = skip_white_space(bytes, colon + 1);
    let tag = slice_subrange(bytes, tag_start, tag_end);
    let put: [u8; 5] = [0x22, 0x53, 0x65, 0x74, 0x22];
    let remove: [u8; 8] = [0x22, 0x52, 0x65, 0x6d, 0x6f, 0x76, 0x65, 0x22];
    assert(put@ =~= set_tag());
    assert(remove@ =~= remove_tag());
    if bytes_equal(tag, put.as_slice()) {
        decode_set_body(bytes, start, body)
    } else if bytes_equal(tag, remove.as_slice()) {
        decode_remove_body(bytes, start, body)
    } else {
        None
    }
}

/// Where the bytes of the text of an entry that puts a value stand.
proof fn lemma_put_layout(tk: Seq<u8>, tv: Seq<u8>)
    ensures
        ({
            let text = set_open() + tk + seq![COMMA] + tv + seq![RBRACKET, RBRACE];
            let n = tk.len() as int;
            let m = tv.len() as int;
            &&& text.len() == n + m + 11
            &&& text[0] == LBRACE
            &&& text.subrange(1, 6) == set_tag()
            &&& text[6] == COLON
            &&& text[7] == LBRACKET
            &&& text.subrange(8, 8 + n) == tk
            &&& text[8 + n] == COMMA
            &&& text.subrange(9 + n, 9 + n + m) == tv
            &&& text[9 + n + m] == RBRACKET
            &&& text[10 + n + m] == RBRACE
        }),
{
    let text = set_open() + tk + seq![COMMA] + tv + seq![RBRACKET, RBRACE];
    let n = tk.len() as int;
    let m = tv.len() as int;
    assert(set_open().len() == 8);
    assert(set_open() =~= seq![LBRACE, 0x22u8, 0x53u8, 0x65u8, 0x74u8, 0x22u8, COLON, LBRACKET]);
    assert(text.subrange(1, 6) =~= set_tag());
    assert(text.subrange(8, 8 + n) =~= tk);
    assert(text.subrange(9 + n, 9 + n + m) =~= tv);
}

/// Where the bytes of the text of an entry that takes a key out stand.
proof fn lemma_remove_layout(tk: Seq<u8>)
    ensures
        ({
            let text = remove_open() + tk + seq![RBRACE];
            let n = tk.len() as int;
            &&& text.len() == n + 11
            &&& text[0] == LBRACE
            &&& text.subrange(1, 9) == remove_tag()
            &&& text[9] == COLON
            &&& text.subrange(10, 10 + n) == tk
            &&& text[10 + n] == RBRACE
        }),
{
    let text = remove_open() + tk + seq![RBRACE];
    let n = tk.len() as int;
    assert(remove_open().len() == 10);
    assert(remove_open() =~= seq![
        LBRACE,
        0x22u8,
        0x52u8,
        0x65u8,
        0x6du8,
        0x6fu8,
        0x76u8,
        0x65u8,
        0x22u8,
        COLON,
    ]);
    assert(text.subrange(1, 9) =~= remove_tag());
    assert(text.subrange(10, 10 + n) =~= tk);
}

/// The tag that starts at `pos` ends where its bytes end.
proof fn lemma_tag_end(b: Seq<u8>, pos: int, tag: Seq<u8>)
    requires
        tag == set_tag() || tag == remove_tag(),
        0 <= pos,
        pos + tag.len() <= b.len(),
        b.subrange(pos, pos + tag.len()) == tag,
    ensures
        string_end(b, pos) == Some(pos + tag.len()),
        skip_ws(b, pos) == pos,
{
    let end = pos + tag.len();
    assert forall|i: int| pos <= i < end implies b[i] == #[trigger] tag[i - pos] by {
        assert(b.subrange(pos, end)[i - pos] == b[i]);
    }
    assert(b[pos] == tag[0]);
    assert(b[end - 1] == tag[tag.len() - 1]);
    assert forall|i: int| pos < i < end - 1 implies #[trigger] b[i] != QUOTE && b[i]
        != BACKSLASH by {
        assert(b[i] == tag[i - pos]);
    }
    lemma_plain_string_end(b, pos, end);
}

/// The text of an entry that can be written reads back as the entry, and
/// as nothing more.
pub proof fn lemma_encodable_parses(entry: EntryView)
    requires
        encodable(entry),
    ensures
        entry_text(entry) matches Some(text) && is_entry_chunk(text, entry),
{
    match entry {
        Entry::Put(key, value) => {
            let tk = json_quote(key).unwrap();
            let tv = json_quote(value).unwrap();
            let n = tk.len() as int;
            let m = tv.len() as int;
            let text = set_open() + tk + seq![COMMA] + tv + seq![RBRACKET, RBRACE];
            lemma_put_layout(tk, tv);
            lemma_tag_end(text, 1, set_tag());
            lemma_quoted_at(text, 8, key);
            lemma_quoted_at(text, 9 + n, value);
            assert(skip_ws(text, 0) == 0);
            assert(skip_ws(text, 6) == 6);
            assert(skip_ws(text, 7) == 7);
            assert(skip_ws(text, 8 + n) == 8 + n);
            assert(skip_ws(text, 9 + n + m) == 9 + n + m);
            assert(skip_ws(text, 10 + n + m) == 10 + n + m);
            assert(parse_set_body(text, 0, 7) == Some(
                ParsedEntry { entry, start: 0, end: text.len() as int },
            ));
            assert(parse_entry(text, 0) == parse_set_body(text, 0, 7)) by {
                reveal(parse_entry);
            }
        },
        Entry::Remove(key) => {
            let tk = json_quote(key).unwrap();
            let n = tk.len() as int;
            let text = remove_open() + tk + seq![RBRACE];
            lemma_remove_layout(tk);
            lemma_tag_end(text, 1, remove_tag());
            lemma_quoted_at(text, 10, key);
            assert(skip_ws(text, 0) == 0);
            assert(skip_ws(text, 9) == 9);
            assert(skip_ws(text, 10 + n) == 10 + n);
            assert(remove_tag() != set_tag()) by {
                assert(remove_tag().len() != set_tag().len());
            }
            assert(parse_remove_body(text, 0, 10) == Some(
                ParsedEntry { entry, start: 0, end: text.len() as int },
            ));
            assert(parse_entry(text, 0) == parse_remove_body(text, 0, 10)) by {
                reveal(parse_entry);
            }
        },
    }
}

/// The text of `entry`. An entry with a string that cannot be written and
/// read back is refused.
pub fn encode_entry(entry: &KvsEntry) -> (r: Result<Vec<u8>>)
    ensures
        match r {
            Ok(text) => encodable(entry@) && entry_text(entry@) == Some(text@) && is_entry_chunk(
                text@,
                entry@,
            ),
            Err(e) => !encodable(entry@) && e == KvsError::Serde(SerdeErrorKind::Unencodable),
        },
{
    let bad = KvsError::Serde(SerdeErrorKind::Unencodable);
    let mut out: Vec<u8> = Vec::new();
    match entry {
        Entry::Put(key, value) => {
            let k = match quote_checked(key) {
                None => {
                    return Err(bad);
                },
                Some(k) => k,
            };
            let v = match quote_checked(value) {
                None => {
                    return Err(bad);
                },
                Some(v) => v,
            };
            let open: [u8; 8] = [0x7b, 0x22, 0x53, 0x65, 0x74, 0x22, 0x3a, 0x5b];
            assert(open@ =~= set_open());
            let comma: [u8; 1] = [0x2c];
            let close: [u8; 2] = [0x5d, 0x7d];
            push_bytes(&mut out, open.as_slice());
            push_bytes(&mut out, k.as_slice());
            push_bytes(&mut out, comma.as_slice());
            push_bytes(&mut out, v.as_slice());
            push_bytes(&mut out, close.as_slice());
            assert(out@ =~= set_open() + k@ + seq![COMMA] + v@ + seq![RBRACKET, RBRACE]);
        },
        Entry::Remove(key) => {
            let k = match quote_checked(key) {
                None => {
                    return Err(bad);
                },
                Some(k) => k,
            };
            let open: [u8; 10] = [0x7b, 0x22, 0x52, 0x65, 0x6d, 0x6f, 0x76, 0x65, 0x22, 0x3a];
            assert(open@ =~= remove_open());
            let close: [u8; 1] = [0x7d];
            push_bytes(&mut out, open.as_slice());
            push_bytes(&mut out, k.as_slice());
            push_bytes(&mut out, close.as_slice());
            assert(out@ =~= remove_open() + k@ + seq![RBRACE]);
        },
    }
    proof {
        lemma_encodable_parses(entry@);
    }
    Ok(out)
}

impl Entry<String, String> {
    /// Appends the text of this entry to `out`. Where the entry cannot be
    /// written, `out` is left as it was.
    pub fn serialize(&self, out: &mut Vec<u8>) -> (r: Result<()>)
        ensures
            match r {
                Ok(()) => encodable(self@) && final(out)@ == old(out)@ + entry_text(self@).unwrap(),
                Err(e) => !encodable(self@) && e == KvsError::Serde(SerdeErrorKind::Unencodable)
                    && final(out)@ == old(out)@,
            },
    {
        match encode_entry(self) {
            Ok(mut text) => {
                out.append(&mut text);
                Ok(())
            },
            Err(e) => Err(e),
        }
    }
}

} // verus!
