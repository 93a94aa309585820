//! The JSON tokens that the log's files are made of.
//!
//! The library lays out and scans the structure of its files itself. The
//! text of a string, with its escapes, is written and read by `serde_json`.

use vstd::prelude::*;
use vstd::slice::slice_subrange;

verus! {

/// What `serde_json::to_vec` returns for the string `s`: the bytes of `s` as
/// a JSON string, quotes included, or `None` where it reports an error.
pub uninterp spec fn json_quote(s: Seq<char>) -> Option<Seq<u8>>;

/// What `serde_json::from_slice` returns for `token` when a string is asked
/// of it: the string that `token` stands for, or `None` where it reports an
/// error.
pub uninterp spec fn json_unquote(token: Seq<u8>) -> Option<Seq<char>>;

/// Writes `s` as a JSON string with `serde_json::to_vec`. Nothing is claimed
/// of the result but that it is what that function returns for `s`, an error
/// being turned into `None`.
#[verifier::external_body]
pub(crate) fn quote(s: &str) -> (token: Option<Vec<u8>>)
    ensures
        match token {
            Some(t) => json_quote(s@) == Some(t@),
            None => json_quote(s@).is_none(),
        },
{
    serde_json::to_vec(s).ok()
}

/// Reads `token` as one JSON string with `serde_json::from_slice`. Nothing is
/// claimed of the result but that it is what that function returns for
/// `token`, an error being turned into `None`.
#[verifier::external_body]
pub(crate) fn unquote(token: &[u8]) -> (s: Option<String>)
    ensures
        match s {
            Some(t) => json_unquote(token@) == Some(t@),
            None => json_unquote(token@).is_none(),
        },
{
    serde_json::from_slice::<String>(token).ok()
}

/// The byte `"`.
pub const QUOTE: u8 = 0x22;

/// The byte `\`.
pub const BACKSLASH: u8 = 0x5c;

/// The byte `{`.
pub const LBRACE: u8 = 0x7b;

/// The byte `}`.
pub const RBRACE: u8 = 0x7d;

/// The byte `[`.
pub const LBRACKET: u8 = 0x5b;

/// The byte `]`.
pub const RBRACKET: u8 = 0x5d;

/// The byte `:`.
pub const COLON: u8 = 0x3a;

/// The byte `,`.
pub const COMMA: u8 = 0x2c;

/// Whether `byte` is JSON white space: a space, a tab, a line feed or a
/// carriage return.
pub open spec fn is_ws(byte: u8) -> bool {
    byte == 0x20 || byte == 0x09 || byte == 0x0a || byte == 0x0d
}

/// The first position at or after `pos` that holds no white space; the length
/// of `b` where only white space follows.
pub open spec fn skip_ws(b: Seq<u8>, pos: int) -> int
    decreases b.len() - pos,
{
    if 0 <= pos < b.len() && is_ws(b[pos]) {
        skip_ws(b, pos + 1)
    } else {
        pos
    }
}

/// Whether `b` holds the byte `byte` at `pos`.
pub open spec fn has_byte(b: Seq<u8>, pos: int, byte: u8) -> bool {
    0 <= pos < b.len() && b[pos] == byte
}

/// Where the string whose opening quote stands just before `pos` ends: the
/// position after its closing quote. A backslash makes the byte after it part
/// of the string, whatever it is.
pub open spec fn string_body_end(b: Seq<u8>, pos: int) -> Option<int>
    decreases b.len() - pos,
{
    if pos < 0 || pos >= b.len() {
        None
    } else if b[pos] == QUOTE {
        Some(pos + 1)
    } else if b[pos] == BACKSLASH {
        if pos + 1 < b.len() {
            string_body_end(b, pos + 2)
        } else {
            None
        }
    } else {
        string_body_end(b, pos + 1)
    }
}

/// Where the string token that starts at `pos` ends, or `None` where no
/// string token starts there or its closing quote is missing.
pub open spec fn string_end(b: Seq<u8>, pos: int) -> Option<int> {
    if has_byte(b, pos, QUOTE) {
        string_body_end(b, pos + 1)
    } else {
        None
    }
}

/// The string token that starts at `pos`: what it stands for, and where it
/// ends.
pub open spec fn parse_string(b: Seq<u8>, pos: int) -> Option<(Seq<char>, int)> {
    match string_end(b, pos) {
        None => None,
        Some(end) => match json_unquote(b.subrange(pos, end)) {
            None => None,
            Some(s) => Some((s, end)),
        },
    }
}

/// Whether the string `s` can be written and read back: its token exists,
/// is one string token from its first byte to its last, and stands for `s`.
pub open spec fn quotable(s: Seq<char>) -> bool {
    json_quote(s) matches Some(token) && string_end(token, 0) == Some(token.len() as int)
        && json_unquote(token) == Some(s)
}

/// Whether `a` from `pa` on and `b` from `pb` on hold the same `n` bytes.
pub open spec fn agree(a: Seq<u8>, pa: int, b: Seq<u8>, pb: int, n: int) -> bool {
    &&& 0 <= pa
    &&& 0 <= pb
    &&& 0 <= n
    &&& pa + n <= a.len()
    &&& pb + n <= b.len()
    &&& forall|i: int| pa <= i < pa + n ==> #[trigger] a[i] == b[i - pa + pb]
}

/// Skipping white space goes forward, stays within the bytes, passes white
/// space only and stops at a byte that is none.
pub proof fn lemma_skip_ws_bounds(b: Seq<u8>, pos: int)
    ensures
        pos <= skip_ws(b, pos),
        0 <= pos <= b.len() ==> skip_ws(b, pos) <= b.len(),
        forall|i: int| pos <= i < skip_ws(b, pos) ==> is_ws(#[trigger] b[i]),
        0 <= skip_ws(b, pos) < b.len() ==> !is_ws(b[skip_ws(b, pos)]),
    decreases b.len() - pos,
{
    if 0 <= pos < b.len() && is_ws(b[pos]) {
        lemma_skip_ws_bounds(b, pos + 1);
    }
}

/// Skipping white space over a stretch of white space leads to where
/// skipping from the end of the stretch leads.
pub proof fn lemma_skip_ws_over(b: Seq<u8>, pos: int, mid: int)
    requires
        0 <= pos <= mid <= b.len(),
        forall|i: int| pos <= i < mid ==> is_ws(#[trigger] b[i]),
    ensures
        skip_ws(b, pos) == skip_ws(b, mid),
    decreases mid - pos,
{
    if pos < mid {
        lemma_skip_ws_over(b, pos + 1, mid);
    }
}

/// Skipping white space depends only on the bytes that it passes and the
/// one at which it stops.
pub proof fn lemma_skip_ws_agree(a: Seq<u8>, pa: int, b: Seq<u8>, pb: int, n: int, p: int)
    requires
        agree(a, pa, b, pb, n),
        pa <= p,
        skip_ws(a, p) < pa + n,
    ensures
        skip_ws(b, p - pa + pb) == skip_ws(a, p) - pa + pb,
    decreases a.len() - p,
{
    lemma_skip_ws_bounds(a, p);
    if 0 <= p < a.len() && is_ws(a[p]) {
        lemma_skip_ws_agree(a, pa, b, pb, n, p + 1);
        assert(a[p] == b[p - pa + pb]);
    } else {
        assert(a[p] == b[p - pa + pb]);
    }
}

/// A string ends after where it starts, and within the bytes.
pub proof fn lemma_string_body_end_bounds(b: Seq<u8>, pos: int)
    ensures
        string_body_end(b, pos) matches Some(end) ==> pos < end <= b.len(),
    decreases b.len() - pos,
{
    if pos < 0 || pos >= b.len() {
    } else if b[pos] == QUOTE {
    } else if b[pos] == BACKSLASH {
        if pos + 1 < b.len() {
            lemma_string_body_end_bounds(b, pos + 2);
        }
    } else {
        lemma_string_body_end_bounds(b, pos + 1);
    }
}

/// Where a string ends depends only on the bytes up to its closing quote.
pub proof fn lemma_string_body_end_agree(
    a: Seq<u8>,
    pa: int,
    b: Seq<u8>,
    pb: int,
    n: int,
    p: int,
)
    requires
        agree(a, pa, b, pb, n),
        pa <= p,
        string_body_end(a, p) matches Some(end) && end <= pa + n,
    ensures
        string_body_end(b, p - pa + pb) == Some(string_body_end(a, p).unwrap() - pa + pb),
    decreases a.len() - p,
{
    lemma_string_body_end_bounds(a, p);
    assert(a[p] == b[p - pa + pb]);
    if a[p] == QUOTE {
    } else if a[p] == BACKSLASH {
        lemma_string_body_end_bounds(a, p + 2);
        lemma_string_body_end_agree(a, pa, b, pb, n, p + 2);
    } else {
        lemma_string_body_end_bounds(a, p + 1);
        lemma_string_body_end_agree(a, pa, b, pb, n, p + 1);
    }
}

/// What a string token stands for depends only on its own bytes.
pub proof fn lemma_parse_string_agree(a: Seq<u8>, pa: int, b: Seq<u8>, pb: int, n: int, p: int)
    requires
        agree(a, pa, b, pb, n),
        pa <= p,
        parse_string(a, p) matches Some(r) && r.1 <= pa + n,
    ensures
        parse_string(b, p - pa + pb) == Some(
            (parse_string(a, p).unwrap().0, parse_string(a, p).unwrap().1 - pa + pb),
        ),
{
    let end = string_end(a, p).unwrap();
    let q = p - pa + pb;
    lemma_string_body_end_bounds(a, p + 1);
    assert(a[p] == b[p - pa + pb]);
    lemma_string_body_end_agree(a, pa, b, pb, n, p + 1);
    let end_b = end - pa + pb;
    assert(string_end(b, q) == Some(end_b));
    assert(a.subrange(p, end) =~= b.subrange(q, end_b)) by {
        assert forall|i: int| 0 <= i < end - p implies a.subrange(p, end)[i] == b.subrange(
            q,
            end_b,
        )[i] by {
            assert(a[p + i] == b[p + i - pa + pb]);
        }
    }
}

/// Whether the bytes of `a` are those of `b`.
pub fn bytes_equal(a: &[u8], b: &[u8]) -> (r: bool)
    ensures
        r == (a@ == b@),
{
    if a.len() != b.len() {
        return false;
    }
    let mut i: usize = 0;
    while i < a.len()
        invariant
            i <= a@.len(),
            a@.len() == b@.len(),
            forall|j: int| 0 <= j < i ==> a@[j] == b@[j],
        decreases a@.len() - i,
    {
        if a[i] != b[i] {
            return false;
        }
        i = i + 1;
    }
    assert(a@ =~= b@);
    true
}

/// Appends the bytes of `piece` to `out`.
pub fn push_bytes(out: &mut Vec<u8>, piece: &[u8])
    ensures
        final(out)@ == old(out)@ + piece@,
{
    let mut i: usize = 0;
    while i < piece.len()
        invariant
            i <= piece@.len(),
            out@ == old(out)@ + piece@.subrange(0, i as int),
        decreases piece@.len() - i,
    {
        out.push(piece[i]);
        assert(out@ =~= old(out)@ + piece@.subrange(0, i + 1));
        i = i + 1;
    }
    assert(piece@.subrange(0, i as int) =~= piece@);
}

/// The first position at or after `pos` that holds no white space.
pub fn skip_white_space(bytes: &[u8], pos: usize) -> (next: usize)
    requires
        pos <= bytes@.len(),
    ensures
        next == skip_ws(bytes@, pos as int),
        pos <= next <= bytes@.len(),
{
    let mut i: usize = pos;
    while i < bytes.len() && (bytes[i] == 0x20 || bytes[i] == 0x09 || bytes[i] == 0x0a || bytes[i]
        == 0x0d)
        invariant
            pos <= i <= bytes@.len(),
            skip_ws(bytes@, pos as int) == skip_ws(bytes@, i as int),
        decreases bytes@.len() - i,
    {
        i = i + 1;
    }
    i
}

/// Where the string token that starts at `pos` ends.
pub fn find_string_end(bytes: &[u8], pos: usize) -> (end: Option<usize>)
    requires
        pos <= bytes@.len(),
    ensures
        match end {
            Some(e) => string_end(bytes@, pos as int) == Some(e as int) && pos < e
                <= bytes@.len(),
            None => string_end(bytes@, pos as int).is_none(),
        },
{
    if pos >= bytes.len() || bytes[pos] != QUOTE {
        return None;
    }
    let mut i: usize = pos + 1;
    loop
        invariant
            pos < i <= bytes@.len(),
            string_end(bytes@, pos as int) == string_body_end(bytes@, i as int),
        decreases bytes@.len() - i,
    {
        if i >= bytes.len() {
            return None;
        }
        let byte = bytes[i];
        if byte == QUOTE {
            return Some(i + 1);
        }
        if byte == BACKSLASH {
            if i + 1 >= bytes.len() {
                return None;
            }
            i = i + 2;
        } else {
            i = i + 1;
        }
    }
}

/// Reads the string token that starts at `pos`.
pub fn read_string(bytes: &[u8], pos: usize) -> (r: Option<(String, usize)>)
    requires
        pos <= bytes@.len(),
    ensures
        match r {
            Some((s, end)) => parse_string(bytes@, pos as int) == Some((s@, end as int)) && pos
                < end <= bytes@.len(),
            None => parse_string(bytes@, pos as int).is_none(),
        },
{
    match find_string_end(bytes, pos) {
        None => None,
        Some(end) => {
            let token = slice_subrange(bytes, pos, end);
            match unquote(token) {
                None => None,
                Some(s) => Some((s, end)),
            }
        },
    }
}

/// A string token without quotes or backslashes between its two quotes ends
/// at its second quote.
pub proof fn lemma_plain_string_end(b: Seq<u8>, pos: int, end: int)
    requires
        0 <= pos,
        pos + 2 <= end <= b.len(),
        b[pos] == QUOTE,
        b[end - 1] == QUOTE,
        forall|i: int| pos < i < end - 1 ==> #[trigger] b[i] != QUOTE && b[i] != BACKSLASH,
    ensures
        string_end(b, pos) == Some(end),
{
    lemma_plain_body_end(b, pos + 1, end);
}

/// A string without quotes or backslashes up to its closing quote ends at
/// that quote.
proof fn lemma_plain_body_end(b: Seq<u8>, from: int, end: int)
    requires
        0 <= from < end <= b.len(),
        b[end - 1] == QUOTE,
        forall|i: int| from <= i < end - 1 ==> #[trigger] b[i] != QUOTE && b[i] != BACKSLASH,
    ensures
        string_body_end(b, from) == Some(end),
    decreases end - from,
{
    if from < end - 1 {
        assert(b[from] != QUOTE && b[from] != BACKSLASH);
        lemma_plain_body_end(b, from + 1, end);
    }
}

/// The token of the string `s`, where `s` can be written and read back.
pub fn quote_checked(s: &String) -> (r: Option<Vec<u8>>)
    ensures
        match r {
            Some(token) => quotable(s@) && json_quote(s@) == Some(token@),
            None => !quotable(s@),
        },
{
    let token = match quote(s.as_str()) {
        None => {
            return None;
        },
        Some(token) => token,
    };
    match find_string_end(token.as_slice(), 0) {
        None => {
            return None;
        },
        Some(end) => {
            if end != token.len() {
                return None;
            }
        },
    }
    match unquote(token.as_slice()) {
        None => None,
        Some(back) => {
            if back == *s {
                Some(token)
            } else {
                None
            }
        },
    }
}

/// The token of a string that can be written and read back has two bytes at
/// least, starts with a quote, and is read as that string.
pub proof fn lemma_quotable_token(s: Seq<char>)
    requires
        quotable(s),
    ensures
        json_quote(s).unwrap().len() >= 2,
        json_quote(s).unwrap()[0] == QUOTE,
        parse_string(json_quote(s).unwrap(), 0) == Some(
            (s, json_quote(s).unwrap().len() as int),
        ),
{
    let token = json_quote(s).unwrap();
    lemma_string_body_end_bounds(token, 1);
    assert(token.subrange(0, token.len() as int) =~= token);
}

/// Within bytes that hold the token of `s` from `pos` on, the string token
/// that starts at `pos` stands for `s` and ends where the token ends.
pub proof fn lemma_quoted_at(b: Seq<u8>, pos: int, s: Seq<char>)
    requires
        quotable(s),
        0 <= pos,
        pos + json_quote(s).unwrap().len() <= b.len(),
        b.subrange(pos, pos + json_quote(s).unwrap().len()) == json_quote(s).unwrap(),
    ensures
        skip_ws(b, pos) == pos,
        parse_string(b, pos) == Some((s, pos + json_quote(s).unwrap().len())),
{
    let token = json_quote(s).unwrap();
    let n = token.len() as int;
    lemma_quotable_token(s);
    assert forall|i: int| 0 <= i < n implies #[trigger] token[i] == b[i - 0 + pos] by {
        assert(b.subrange(pos, pos + n)[i] == b[pos + i]);
    }
    assert(agree(token, 0, b, pos, n));
    lemma_parse_string_agree(token, 0, b, pos, n, 0);
    assert(b[pos] == token[0]);
}

} // verus!
