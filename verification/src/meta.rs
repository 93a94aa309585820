//! The text of the metadata file, which describes a log: the directory it
//! was opened in, its active partition and its sealed partitions.
//!
//! The file holds one JSON object,
//! `{"dirname":<string>,"active":<partition>,"hist":[<partition>,...]}`,
//! where a partition is `{"entry_count":<number>,"file_id":<number>}`. The
//! keys stand in this order. White space may stand between the tokens.

use crate::error::{KvsError, Result, SerdeErrorKind};
use crate::json::{
    bytes_equal, is_ws, json_quote, lemma_quoted_at, parse_string, push_bytes, quotable,
    quote_checked, read_string, skip_white_space, skip_ws, COLON, COMMA, LBRACE, LBRACKET, RBRACE,
    RBRACKET,
};
use crate::partition::LogPartition;
use vstd::prelude::*;
use vstd::slice::slice_subrange;

verus! {

/// What the metadata file says of a log.
#[derive(Debug, Clone, PartialEq, Eq)]
pub struct LogMeta {
    pub dirname: String,
    pub active: LogPartition,
    pub hist: Vec<LogPartition>,
}

/// What the metadata file says of a log, as plain values.
pub struct LogMetaView {
    pub dirname: Seq<char>,
    pub active: LogPartition,
    pub hist: Seq<LogPartition>,
}

impl View for LogMeta {
    type V = LogMetaView;

    open spec fn view(&self) -> LogMetaView {
        LogMetaView { dirname: self.dirname@, active: self.active, hist: self.hist@ }
    }
}

/// The token `"dirname"`.
pub open spec fn dirname_key() -> Seq<u8> {
    seq![0x22u8, 0x64u8, 0x69u8, 0x72u8, 0x6eu8, 0x61u8, 0x6du8, 0x65u8, 0x22u8]
}

/// The token `"active"`.
pub open spec fn active_key() -> Seq<u8> {
    seq![0x22u8, 0x61u8, 0x63u8, 0x74u8, 0x69u8, 0x76u8, 0x65u8, 0x22u8]
}

/// The token `"hist"`.
pub open spec fn hist_key() -> Seq<u8> {
    seq![0x22u8, 0x68u8, 0x69u8, 0x73u8, 0x74u8, 0x22u8]
}

/// The token `"entry_count"`.
pub open spec fn entry_count_key() -> Seq<u8> {
    seq![
        0x22u8,
        0x65u8,
        0x6eu8,
        0x74u8,
        0x72u8,
        0x79u8,
        0x5fu8,
        0x63u8,
        0x6fu8,
        0x75u8,
        0x6eu8,
        0x74u8,
        0x22u8,
    ]
}

/// The token `"file_id"`.
pub open spec fn file_id_key() -> Seq<u8> {
    seq![0x22u8, 0x66u8, 0x69u8, 0x6cu8, 0x65u8, 0x5fu8, 0x69u8, 0x64u8, 0x22u8]
}

/// Whether `b` holds the bytes `lit` from `pos` on.
pub open spec fn has_lit(b: Seq<u8>, pos: int, lit: Seq<u8>) -> bool {
    0 <= pos && pos + lit.len() <= b.len() && b.subrange(pos, pos + lit.len()) == lit
}

/// The position after the token `lit`, which is to follow `pos` after white
/// space; `None` where it does not, or where `pos` is `None` already.
pub open spec fn lit_at(b: Seq<u8>, pos: Option<int>, lit: Seq<u8>) -> Option<int> {
    match pos {
        None => None,
        Some(p) => {
            let q = skip_ws(b, p);
            if has_lit(b, q, lit) {
                Some(q + lit.len())
            } else {
                None
            }
        },
    }
}

/// Whether `byte` is a decimal digit.
pub open spec fn is_digit(byte: u8) -> bool {
    0x30 <= byte <= 0x39
}

/// The first position at or after `pos` that holds no digit.
pub open spec fn digits_end(b: Seq<u8>, pos: int) -> int
    decreases b.len() - pos,
{
    if 0 <= pos < b.len() && is_digit(b[pos]) {
        digits_end(b, pos + 1)
    } else {
        pos
    }
}

/// The number that the digits from `start` to `end` stand for.
pub open spec fn digits_value(b: Seq<u8>, start: int, end: int) -> nat
    decreases end - start,
{
    if end <= start {
        0
    } else {
        digits_value(b, start, end - 1) * 10 + (b[end - 1] - 0x30) as nat
    }
}

/// The number that follows `pos` after white space, and the position after
/// it. The number is a run of digits that does not start with a needless
/// zero, and is `max` at most.
pub open spec fn number_at(b: Seq<u8>, pos: Option<int>, max: nat) -> Option<(nat, int)> {
    match pos {
        None => None,
        Some(p) => {
            let start = skip_ws(b, p);
            let end = digits_end(b, start);
            if end <= start {
                None
            } else if b[start] == 0x30 && end > start + 1 {
                None
            } else if digits_value(b, start, end) > max {
                None
            } else {
                Some((digits_value(b, start, end), end))
            }
        },
    }
}

/// The partition that follows `pos`, and the position after it.
pub open spec fn partition_at(b: Seq<u8>, pos: Option<int>) -> Option<(LogPartition, int)> {
    let count_at = lit_at(
        b,
        lit_at(b, lit_at(b, pos, seq![LBRACE]), entry_count_key()),
        seq![COLON],
    );
    match number_at(b, count_at, u16::MAX as nat) {
        None => None,
        Some((count, count_end)) => {
            let id_at = lit_at(
                b,
                lit_at(b, lit_at(b, Some(count_end), seq![COMMA]), file_id_key()),
                seq![COLON],
            );
            match number_at(b, id_at, u128::MAX as nat) {
                None => None,
                Some((id, id_end)) => match lit_at(b, Some(id_end), seq![RBRACE]) {
                    None => None,
                    Some(end) => Some(
                        (LogPartition { entry_count: count as u16, file_id: id as u128 }, end),
                    ),
                },
            }
        },
    }
}

/// The rest of a list of partitions, after one of them: either `]`, or `,`,
/// a partition and the rest after that. Gives the partitions and the
/// position after `]`.
pub open spec fn more_partitions_at(b: Seq<u8>, pos: int) -> Option<(Seq<LogPartition>, int)>
    decreases b.len() - pos,
{
    match lit_at(b, Some(pos), seq![RBRACKET]) {
        Some(end) => Some((Seq::empty(), end)),
        None => match partition_at(b, lit_at(b, Some(pos), seq![COMMA])) {
            None => None,
            Some((p, next)) => if next <= pos || next > b.len() {
                None
            } else {
                match more_partitions_at(b, next) {
                    None => None,
                    Some((rest, end)) => Some((seq![p] + rest, end)),
                }
            },
        },
    }
}

/// The list of partitions whose `[` follows `pos`, and the position after
/// its `]`.
pub open spec fn partitions_at(b: Seq<u8>, pos: Option<int>) -> Option<(Seq<LogPartition>, int)> {
    match lit_at(b, pos, seq![LBRACKET]) {
        None => None,
        Some(inner) => match lit_at(b, Some(inner), seq![RBRACKET]) {
            Some(end) => Some((Seq::empty(), end)),
            None => match partition_at(b, Some(inner)) {
                None => None,
                Some((p, next)) => match more_partitions_at(b, next) {
                    None => None,
                    Some((rest, end)) => Some((seq![p] + rest, end)),
                },
            },
        },
    }
}

/// What `b` as a whole says of a log, or `None` where it is not the text of
/// a description.
#[verifier::opaque]
pub open spec fn parse_meta(b: Seq<u8>) -> Option<LogMetaView> {
    let name_at = lit_at(
        b,
        lit_at(b, lit_at(b, Some(0), seq![LBRACE]), dirname_key()),
        seq![COLON],
    );
    match name_at {
        None => None,
        Some(p) => match parse_string(b, skip_ws(b, p)) {
            None => None,
            Some((dirname, name_end)) => {
                let active_at = lit_at(
                    b,
                    lit_at(b, lit_at(b, Some(name_end), seq![COMMA]), active_key()),
                    seq![COLON],
                );
                match partition_at(b, active_at) {
                    None => None,
                    Some((active, active_end)) => {
                        let hist_at = lit_at(
                            b,
                            lit_at(b, lit_at(b, Some(active_end), seq![COMMA]), hist_key()),
                            seq![COLON],
                        );
                        match partitions_at(b, hist_at) {
                            None => None,
                            Some((hist, hist_end)) => match lit_at(
                                b,
                                Some(hist_end),
                                seq![RBRACE],
                            ) {
                                None => None,
                                Some(end) => if skip_ws(b, end) >= b.len() {
                                    Some(LogMetaView { dirname, active, hist })
                                } else {
                                    None
                                },
                            },
                        }
                    },
                }
            },
        }
    }
}

/// The decimal digit that stands for `d`, for `d < 10`.
pub open spec fn dec_digit(d: nat) -> u8 {
    (0x30 + d) as u8
}

/// `n` written in decimal, without needless zeros.
pub open spec fn dec_digits(n: nat) -> Seq<u8>
    decreases n,
{
    if n < 10 {
        seq![dec_digit(n)]
    } else {
        dec_digits(n / 10).push(dec_digit(n % 10))
    }
}

/// The text that is written for the partition `p`.
pub open spec fn partition_text(p: LogPartition) -> Seq<u8> {
    seq![LBRACE] + entry_count_key() + seq![COLON] + dec_digits(p.entry_count as nat) + seq![COMMA]
        + file_id_key() + seq![COLON] + dec_digits(p.file_id as nat) + seq![RBRACE]
}

/// The text that is written after a partition of a list: for each of the
/// partitions `rest`, a comma and its text, and then the closing bracket.
pub open spec fn tail_text(rest: Seq<LogPartition>) -> Seq<u8>
    decreases rest.len(),
{
    if rest.len() == 0 {
        seq![RBRACKET]
    } else {
        seq![COMMA] + partition_text(rest.first()) + tail_text(rest.drop_first())
    }
}

/// The text that is written for the list of the partitions `hist`: their
/// texts between brackets, with a comma between each two.
pub open spec fn list_text(hist: Seq<LogPartition>) -> Seq<u8> {
    if hist.len() == 0 {
        seq![LBRACKET, RBRACKET]
    } else {
        seq![LBRACKET] + partition_text(hist.first()) + tail_text(hist.drop_first())
    }
}

/// The text that is written for the description `meta`, without any white
/// space, or `None` where the name of the directory cannot be written.
#[verifier::opaque]
pub open spec fn meta_text(meta: LogMetaView) -> Option<Seq<u8>> {
    match json_quote(meta.dirname) {
        None => None,
        Some(name) => Some(
            seq![LBRACE] + dirname_key() + seq![COLON] + name + seq![COMMA] + active_key()
                + seq![COLON] + partition_text(meta.active) + seq![COMMA] + hist_key()
                + seq![COLON] + list_text(meta.hist) + seq![RBRACE],
        ),
    }
}

/// Whether `meta` can be written: the name of its directory can be written
/// and read back.
pub open spec fn meta_encodable(meta: LogMetaView) -> bool {
    quotable(meta.dirname)
}

/// The token `"dirname"`.
fn dirname_key_bytes() -> (lit: [u8; 9])
    ensures
        lit@ == dirname_key(),
{
    let lit: [u8; 9] = [0x22, 0x64, 0x69, 0x72, 0x6e, 0x61, 0x6d, 0x65, 0x22];
    assert(lit@ =~= dirname_key());
    lit
}

/// The token `"active"`.
fn active_key_bytes() -> (lit: [u8; 8])
    ensures
        lit@ == active_key(),
{
    let lit: [u8; 8] = [0x22, 0x61, 0x63, 0x74, 0x69, 0x76, 0x65, 0x22];
    assert(lit@ =~= active_key());
    lit
}

/// The token `"hist"`.
fn hist_key_bytes() -> (lit: [u8; 6])
    ensures
        lit@ == hist_key(),
{
    let lit: [u8; 6] = [0x22, 0x68, 0x69, 0x73, 0x74, 0x22];
    assert(lit@ =~= hist_key());
    lit
}

/// The token `"entry_count"`.
fn entry_count_key_bytes() -> (lit: [u8; 13])
    ensures
        lit@ == entry_count_key(),
{
    let lit: [u8; 13] = [
        0x22, 0x65, 0x6e, 0x74, 0x72, 0x79, 0x5f, 0x63, 0x6f, 0x75, 0x6e, 0x74, 0x22,
    ];
    assert(lit@ =~= entry_count_key());
    lit
}

/// The token `"file_id"`.
fn file_id_key_bytes() -> (lit: [u8; 9])
    ensures
        lit@ == file_id_key(),
{
    let lit: [u8; 9] = [0x22, 0x66, 0x69, 0x6c, 0x65, 0x5f, 0x69, 0x64, 0x22];
    assert(lit@ =~= file_id_key());
    lit
}


/// A machine position as a mathematical one.
pub open spec fn position(pos: Option<usize>) -> Option<int> {
    match pos {
        Some(p) => Some(p as int),
        None => None,
    }
}

/// The position after the token `lit`, which is to follow `pos` after white
/// space.
fn read_lit(bytes: &[u8], pos: Option<usize>, lit: &[u8]) -> (r: Option<usize>)
    requires
        pos matches Some(p) ==> p <= bytes@.len(),
    ensures
        match r {
            Some(end) => lit_at(bytes@, position(pos), lit@) == Some(end as int)
                && end <= bytes@.len(),
            None => lit_at(bytes@, position(pos), lit@).is_none(),
        },
{
    match pos {
        None => None,
        Some(p) => {
            let q = skip_white_space(bytes, p);
            if lit.len() > bytes.len() - q {
                return None;
            }
            let end = q + lit.len();
            if bytes_equal(slice_subrange(bytes, q, end), lit) {
                Some(end)
            } else {
                None
            }
        },
    }
}

/// The position after the one byte `byte`, which is to follow `pos` after
/// white space.
fn read_byte(bytes: &[u8], pos: Option<usize>, byte: u8) -> (r: Option<usize>)
    requires
        pos matches Some(p) ==> p <= bytes@.len(),
    ensures
        match r {
            Some(end) => lit_at(bytes@, position(pos), seq![byte]) == Some(
                end as int,
            ) && end <= bytes@.len(),
            None => lit_at(bytes@, position(pos), seq![byte]).is_none(),
        },
{
    let lit: [u8; 1] = [byte];
    assert(lit@ =~= seq![byte]);
    read_lit(bytes, pos, lit.as_slice())
}

/// A run of digits ends at or after where it starts, within the bytes, and
/// holds digits only.
proof fn lemma_digits_end_bounds(b: Seq<u8>, pos: int)
    ensures
        pos <= digits_end(b, pos),
        0 <= pos <= b.len() ==> digits_end(b, pos) <= b.len(),
        forall|i: int| pos <= i < digits_end(b, pos) ==> is_digit(#[trigger] b[i]),
    decreases b.len() - pos,
{
    if 0 <= pos < b.len() && is_digit(b[pos]) {
        lemma_digits_end_bounds(b, pos + 1);
    }
}

/// More digits stand for a number that is not smaller.
proof fn lemma_digits_value_grows(b: Seq<u8>, start: int, mid: int, end: int)
    requires
        0 <= start <= mid <= end <= b.len(),
        forall|i: int| start <= i < end ==> is_digit(#[trigger] b[i]),
    ensures
        digits_value(b, start, mid) <= digits_value(b, start, end),
    decreases end - mid,
{
    if mid < end {
        lemma_digits_value_grows(b, start, mid, end - 1);
        assert(is_digit(b[end - 1]));
    }
}

/// The number that follows `pos` after white space.
fn read_number(bytes: &[u8], pos: Option<usize>, max: u128) -> (r: Option<(u128, usize)>)
    requires
        pos matches Some(p) ==> p <= bytes@.len(),
    ensures
        match r {
            Some((n, end)) => number_at(bytes@, position(pos), max as nat) == Some(
                (n as nat, end as int),
            ) && end <= bytes@.len() && n <= max,
            None => number_at(bytes@, position(pos), max as nat).is_none(),
        },
{
    let p = match pos {
        None => { return None; },
        Some(p) => p,
    };
    let start = skip_white_space(bytes, p);
    proof {
        lemma_digits_end_bounds(bytes@, start as int);
    }
    let ghost end = digits_end(bytes@, start as int);
    let mut i: usize = start;
    let mut acc: u128 = 0;
    while i < bytes.len() && 0x30 <= bytes[i] && bytes[i] <= 0x39
        invariant
            pos == Some(p),
            start == skip_ws(bytes@, p as int),
            start <= i <= end <= bytes@.len(),
            end == digits_end(bytes@, start as int),
            end == digits_end(bytes@, i as int),
            acc == digits_value(bytes@, start as int, i as int),
            acc <= max,
            forall|j: int| start <= j < end ==> is_digit(#[trigger] bytes@[j]),
        decreases bytes@.len() - i,
    {
        let d: u128 = (bytes[i] - 0x30) as u128;
        proof {
            assert(digits_end(bytes@, i as int) == digits_end(bytes@, i + 1));
            lemma_digits_end_bounds(bytes@, i + 1);
            assert(digits_value(bytes@, start as int, i + 1) == acc * 10 + d);
        }
        if d > max || acc > (max - d) / 10 {
            proof {
                assert(acc * 10 + d > max);
                lemma_digits_value_grows(bytes@, start as int, i + 1, end);
            }
            return None;
        }
        acc = acc * 10 + d;
        i = i + 1;
    }
    if i == start {
        return None;
    }
    if bytes[start] == 0x30 && i > start + 1 {
        return None;
    }
    Some((acc, i))
}

/// The partition that follows `pos`.
fn read_partition(bytes: &[u8], pos: Option<usize>) -> (r: Option<(LogPartition, usize)>)
    requires
        pos matches Some(p) ==> p <= bytes@.len(),
    ensures
        match r {
            Some((p, end)) => partition_at(bytes@, position(pos)) == Some(
                (p, end as int),
            ) && end <= bytes@.len(),
            None => partition_at(bytes@, position(pos)).is_none(),
        },
{
    let count_key = entry_count_key_bytes();
    let id_key = file_id_key_bytes();
    let at1 = read_byte(bytes, pos, LBRACE);
    let at2 = read_lit(bytes, at1, count_key.as_slice());
    let at3 = read_byte(bytes, at2, COLON);
    let (count, count_end) = match read_number(bytes, at3, 65535) {
        None => { return None; },
        Some(r) => r,
    };
    let at4 = read_byte(bytes, Some(count_end), COMMA);
    let at5 = read_lit(bytes, at4, id_key.as_slice());
    let at6 = read_byte(bytes, at5, COLON);
    let (id, id_end) = match read_number(bytes, at6, u128::MAX) {
        None => { return None; },
        Some(r) => r,
    };
    match read_byte(bytes, Some(id_end), RBRACE) {
        None => None,
        Some(end) => Some((LogPartition { entry_count: count as u16, file_id: id }, end)),
    }
}

/// The list of partitions whose `[` follows `pos`.
fn read_partitions(bytes: &[u8], pos: Option<usize>) -> (r: Option<(Vec<LogPartition>, usize)>)
    requires
        pos matches Some(p) ==> p <= bytes@.len(),
    ensures
        match r {
            Some((hist, end)) => partitions_at(bytes@, position(pos)) == Some(
                (hist@, end as int),
            ) && end <= bytes@.len(),
            None => partitions_at(bytes@, position(pos)).is_none(),
        },
{
    let inner = match read_byte(bytes, pos, LBRACKET) {
        None => { return None; },
        Some(inner) => inner,
    };
    let mut hist: Vec<LogPartition> = Vec::new();
    match read_byte(bytes, Some(inner), RBRACKET) {
        Some(end) => { return Some((hist, end)); },
        None => {},
    }
    let (first, mut cur) = match read_partition(bytes, Some(inner)) {
        None => { return None; },
        Some(r) => r,
    };
    hist.push(first);
    let ghost whole = partitions_at(bytes@, position(pos));
    loop
        invariant
            cur <= bytes@.len(),
            whole == partitions_at(bytes@, position(pos)),
            whole == match more_partitions_at(bytes@, cur as int) {
                None => None::<(Seq<LogPartition>, int)>,
                Some((rest, end)) => Some((hist@ + rest, end)),
            },
        decreases bytes@.len() - cur,
    {
        match read_byte(bytes, Some(cur), RBRACKET) {
            Some(end) => {
                assert(hist@ + Seq::<LogPartition>::empty() =~= hist@);
                return Some((hist, end));
            },
            None => {},
        }
        let comma = read_byte(bytes, Some(cur), COMMA);
        let (p, next) = match read_partition(bytes, comma) {
            None => { return None; },
            Some(r) => r,
        };
        if next <= cur {
            return None;
        }
        proof {
            match more_partitions_at(bytes@, next as int) {
                None => {},
                Some((rest, end)) => {
                    assert(hist@.push(p) + rest =~= hist@ + (seq![p] + rest));
                },
            }
        }
        hist.push(p);
        cur = next;
    }
}

/// Reads `bytes` as the description of a log.
pub fn decode_meta(bytes: &[u8]) -> (r: Result<LogMeta>)
    ensures
        match r {
            Ok(meta) => parse_meta(bytes@) == Some(meta@),
            Err(e) => parse_meta(bytes@).is_none() && e == KvsError::Serde(
                SerdeErrorKind::MalformedMetadata,
            ),
        },
{
    proof {
        reveal(parse_meta);
    }
    let bad = KvsError::Serde(SerdeErrorKind::MalformedMetadata);
    let dirname_key = dirname_key_bytes();
    let active_key = active_key_bytes();
    let hist_key = hist_key_bytes();
    let at1 = read_byte(bytes, Some(0), LBRACE);
    let at2 = read_lit(bytes, at1, dirname_key.as_slice());
    let at3 = match read_byte(bytes, at2, COLON) {
        None => { return Err(bad); },
        Some(p) => p,
    };
    let name_start = skip_white_space(bytes, at3);
    let (dirname, name_end) = match read_string(bytes, name_start) {
        None => { return Err(bad); },
        Some(r) => r,
    };
    let at4 = read_byte(bytes, Some(name_end), COMMA);
    let at5 = read_lit(bytes, at4, active_key.as_slice());
    let at6 = read_byte(bytes, at5, COLON);
    let (active, active_end) = match read_partition(bytes, at6) {
        None => { return Err(bad); },
        Some(r) => r,
    };
    let at7 = read_byte(bytes, Some(active_end), COMMA);
    let at8 = read_lit(bytes, at7, hist_key.as_slice());
    let at9 = read_byte(bytes, at8, COLON);
    let (hist, hist_end) = match read_partitions(bytes, at9) {
        None => { return Err(bad); },
        Some(r) => r,
    };
    let end = match read_byte(bytes, Some(hist_end), RBRACE) {
        None => { return Err(bad); },
        Some(end) => end,
    };
    if skip_white_space(bytes, end) < bytes.len() {
        return Err(bad);
    }
    Ok(LogMeta { dirname, active, hist })
}

/// Appends the decimal digits of `n` to `out`.
fn push_decimal(out: &mut Vec<u8>, n: u128)
    ensures
        final(out)@ == old(out)@ + dec_digits(n as nat),
    decreases n,
{
    if n >= 10 {
        push_decimal(out, n / 10);
    }
    let d: u8 = (n % 10) as u8;
    out.push(0x30 + d);
    assert(out@ =~= old(out)@ + dec_digits(n as nat));
}

/// Appends the text of the partition `p` to `out`.
fn push_partition(out: &mut Vec<u8>, p: &LogPartition)
    ensures
        final(out)@ == old(out)@ + partition_text(*p),
{
    let count_key = entry_count_key_bytes();
    let id_key = file_id_key_bytes();
    out.push(LBRACE);
    push_bytes(out, count_key.as_slice());
    out.push(COLON);
    push_decimal(out, p.entry_count as u128);
    out.push(COMMA);
    push_bytes(out, id_key.as_slice());
    out.push(COLON);
    push_decimal(out, p.file_id);
    out.push(RBRACE);
    assert(out@ =~= old(out)@ + partition_text(*p));
}

/// Appends the text of the list of the partitions `hist` to `out`.
fn push_list(out: &mut Vec<u8>, hist: &Vec<LogPartition>)
    ensures
        final(out)@ == old(out)@ + list_text(hist@),
{
    out.push(LBRACKET);
    if hist.len() == 0 {
        out.push(RBRACKET);
        assert(out@ =~= old(out)@ + list_text(hist@));
        return;
    }
    push_partition(out, &hist[0]);
    let mut i: usize = 1;
    assert(hist@.skip(1) =~= hist@.drop_first());
    assert(out@ + tail_text(hist@.skip(1)) =~= old(out)@ + list_text(hist@));
    while i < hist.len()
        invariant
            1 <= i <= hist@.len(),
            out@ + tail_text(hist@.skip(i as int)) == old(out)@ + list_text(hist@),
        decreases hist@.len() - i,
    {
        let ghost before = out@;
        let ghost rest = hist@.skip(i as int);
        out.push(COMMA);
        push_partition(out, &hist[i]);
        proof {
            assert(rest.first() == hist@[i as int]);
            assert(rest.drop_first() =~= hist@.skip(i + 1));
            assert(out@ + tail_text(hist@.skip(i + 1)) =~= before + tail_text(rest));
        }
        i = i + 1;
    }
    let ghost before = out@;
    out.push(RBRACKET);
    proof {
        assert(hist@.skip(i as int) =~= Seq::<LogPartition>::empty());
        assert(out@ =~= before + tail_text(hist@.skip(i as int)));
    }
}

/// Bytes that hold two pieces, one after the other, hold each of them.
proof fn lemma_split(b: Seq<u8>, pos: int, x: Seq<u8>, y: Seq<u8>)
    requires
        has_lit(b, pos, x + y),
    ensures
        has_lit(b, pos, x),
        has_lit(b, pos + x.len(), y),
{
    let whole = b.subrange(pos, pos + (x + y).len());
    assert forall|i: int| 0 <= i < x.len() implies b.subrange(pos, pos + x.len())[i] == x[i] by {
        assert(whole[i] == (x + y)[i]);
    }
    assert(b.subrange(pos, pos + x.len()) =~= x);
    assert forall|i: int| 0 <= i < y.len() implies b.subrange(
        pos + x.len(),
        pos + x.len() + y.len(),
    )[i] == y[i] by {
        assert(whole[x.len() + i] == (x + y)[x.len() + i]);
    }
    assert(b.subrange(pos + x.len(), pos + x.len() + y.len()) =~= y);
}

/// A token that stands right at `pos` is found there.
proof fn lemma_lit_exact(b: Seq<u8>, pos: int, lit: Seq<u8>)
    requires
        has_lit(b, pos, lit),
        lit.len() >= 1,
        !is_ws(lit[0]),
    ensures
        lit_at(b, Some(pos), lit) == Some(pos + lit.len()),
        b[pos] == lit[0],
{
    assert(b.subrange(pos, pos + lit.len())[0] == b[pos]);
}

/// Where another byte stands at `pos`, the one-byte token `byte` does not.
proof fn lemma_lit_absent(b: Seq<u8>, pos: int, byte: u8)
    requires
        0 <= pos < b.len(),
        !is_ws(b[pos]),
        b[pos] != byte,
    ensures
        lit_at(b, Some(pos), seq![byte]).is_none(),
{
    if has_lit(b, pos, seq![byte]) {
        assert(b.subrange(pos, pos + 1)[0] == b[pos]);
    }
}

/// The digits of a number are digits; there is one at least, and the first
/// is a zero only where the number is zero.
proof fn lemma_dec_digits_shape(n: nat)
    ensures
        dec_digits(n).len() >= 1,
        forall|i: int| 0 <= i < dec_digits(n).len() ==> is_digit(#[trigger] dec_digits(n)[i]),
        dec_digits(n)[0] == 0x30 ==> n == 0,
        n < 10 ==> dec_digits(n).len() == 1,
    decreases n,
{
    if n >= 10 {
        lemma_dec_digits_shape(n / 10);
        let front = dec_digits(n / 10);
        assert forall|i: int| 0 <= i < dec_digits(n).len() implies is_digit(
            #[trigger] dec_digits(n)[i],
        ) by {
            if i < front.len() {
                assert(dec_digits(n)[i] == front[i]);
            }
        }
        assert(dec_digits(n)[0] == front[0]);
    }
}

/// The number that digits stand for depends on these digits only.
proof fn lemma_digits_value_agree(a: Seq<u8>, pa: int, b: Seq<u8>, pb: int, len: int)
    requires
        0 <= len,
        0 <= pa,
        0 <= pb,
        pa + len <= a.len(),
        pb + len <= b.len(),
        forall|i: int| pa <= i < pa + len ==> #[trigger] a[i] == b[i - pa + pb],
    ensures
        digits_value(a, pa, pa + len) == digits_value(b, pb, pb + len),
    decreases len,
{
    if len > 0 {
        lemma_digits_value_agree(a, pa, b, pb, len - 1);
        assert(a[pa + len - 1] == b[pa + len - 1 - pa + pb]);
    }
}

/// The digits of a number stand for the number.
proof fn lemma_dec_digits_value(n: nat)
    ensures
        digits_value(dec_digits(n), 0, dec_digits(n).len() as int) == n,
    decreases n,
{
    let d = dec_digits(n);
    if n >= 10 {
        let front = dec_digits(n / 10);
        lemma_dec_digits_value(n / 10);
        assert(d.len() == front.len() + 1);
        assert forall|i: int| 0 <= i < front.len() implies #[trigger] d[i] == front[i - 0 + 0] by {}
        lemma_digits_value_agree(d, 0, front, 0, front.len() as int);
        assert(d[d.len() - 1] == dec_digit(n % 10));
        let last = d.len() - 1;
        assert(digits_value(d, 0, last + 1) == digits_value(d, 0, last) * 10 + (d[last]
            - 0x30) as nat);
    } else {
        assert(digits_value(d, 0, 1) == digits_value(d, 0, 0) * 10 + (d[0] - 0x30) as nat);
    }
}

/// A run of digits ends where a byte follows that is no digit, or nothing.
proof fn lemma_digits_end_exact(b: Seq<u8>, pos: int, len: int)
    requires
        0 <= pos,
        0 <= len,
        pos + len <= b.len(),
        forall|i: int| pos <= i < pos + len ==> is_digit(#[trigger] b[i]),
        pos + len == b.len() || !is_digit(b[pos + len]),
    ensures
        digits_end(b, pos) == pos + len,
    decreases len,
{
    if len > 0 {
        assert(is_digit(b[pos]));
        lemma_digits_end_exact(b, pos + 1, len - 1);
    }
}

/// The digits of a number that stand right at `pos`, before a byte that is
/// no digit, are read as the number.
proof fn lemma_number_exact(b: Seq<u8>, pos: int, n: nat, max: nat)
    requires
        has_lit(b, pos, dec_digits(n)),
        n <= max,
        pos + dec_digits(n).len() == b.len() || !is_digit(b[pos + dec_digits(n).len()]),
    ensures
        number_at(b, Some(pos), max) == Some((n, pos + dec_digits(n).len())),
{
    let d = dec_digits(n);
    let len = d.len() as int;
    lemma_dec_digits_shape(n);
    lemma_dec_digits_value(n);
    assert forall|i: int| pos <= i < pos + len implies #[trigger] b[i] == d[i - pos + 0] by {
        assert(b.subrange(pos, pos + len)[i - pos] == b[i]);
    }
    assert forall|i: int| pos <= i < pos + len implies is_digit(#[trigger] b[i]) by {
        assert(b[i] == d[i - pos]);
    }
    assert(is_digit(b[pos]));
    assert(skip_ws(b, pos) == pos);
    lemma_digits_end_exact(b, pos, len);
    lemma_digits_value_agree(b, pos, d, 0, len);
    assert(b[pos] == d[0]);
}

/// The text of a partition that stands right at `pos` is read as the
/// partition.
proof fn lemma_partition_exact(b: Seq<u8>, pos: int, p: LogPartition)
    requires
        has_lit(b, pos, partition_text(p)),
    ensures
        partition_at(b, Some(pos)) == Some((p, pos + partition_text(p).len())),
        b[pos] == LBRACE,
        partition_text(p).len() >= 1,
{
    let count = dec_digits(p.entry_count as nat);
    let id = dec_digits(p.file_id as nat);
    let x1 = seq![LBRACE];
    let x2 = x1 + entry_count_key();
    let x3 = x2 + seq![COLON];
    let x4 = x3 + count;
    let x5 = x4 + seq![COMMA];
    let x6 = x5 + file_id_key();
    let x7 = x6 + seq![COLON];
    let x8 = x7 + id;
    lemma_split(b, pos, x8, seq![RBRACE]);
    lemma_split(b, pos, x7, id);
    lemma_split(b, pos, x6, seq![COLON]);
    lemma_split(b, pos, x5, file_id_key());
    lemma_split(b, pos, x4, seq![COMMA]);
    lemma_split(b, pos, x3, count);
    lemma_split(b, pos, x2, seq![COLON]);
    lemma_split(b, pos, x1, entry_count_key());
    let at1 = pos + 1;
    let at2 = at1 + entry_count_key().len();
    let at3 = at2 + 1;
    let at4 = at3 + count.len();
    let at5 = at4 + 1;
    let at6 = at5 + file_id_key().len();
    let at7 = at6 + 1;
    let at8 = at7 + id.len();
    lemma_lit_exact(b, pos, seq![LBRACE]);
    lemma_lit_exact(b, at1, entry_count_key());
    lemma_lit_exact(b, at2, seq![COLON]);
    lemma_lit_exact(b, at4, seq![COMMA]);
    lemma_number_exact(b, at3, p.entry_count as nat, u16::MAX as nat);
    lemma_lit_exact(b, at5, file_id_key());
    lemma_lit_exact(b, at6, seq![COLON]);
    lemma_lit_exact(b, at8, seq![RBRACE]);
    lemma_number_exact(b, at7, p.file_id as nat, u128::MAX as nat);
}

/// The text after a partition of a list, standing right at `pos`, is read as
/// the partitions that it was written for.
proof fn lemma_tail_exact(b: Seq<u8>, pos: int, rest: Seq<LogPartition>)
    requires
        has_lit(b, pos, tail_text(rest)),
    ensures
        more_partitions_at(b, pos) == Some((rest, pos + tail_text(rest).len())),
    decreases rest.len(),
{
    if rest.len() == 0 {
        lemma_lit_exact(b, pos, seq![RBRACKET]);
        assert(rest =~= Seq::<LogPartition>::empty());
    } else {
        let first = rest.first();
        let others = rest.drop_first();
        let head = seq![COMMA] + partition_text(first);
        lemma_split(b, pos, head, tail_text(others));
        lemma_split(b, pos, seq![COMMA], partition_text(first));
        lemma_lit_exact(b, pos, seq![COMMA]);
        lemma_lit_absent(b, pos, RBRACKET);
        lemma_partition_exact(b, pos + 1, first);
        let next = pos + 1 + partition_text(first).len();
        lemma_tail_exact(b, next, others);
        assert(seq![first] + others =~= rest);
    }
}

/// The text of a list of partitions that stands right at `pos` is read as
/// the partitions that it was written for.
proof fn lemma_list_exact(b: Seq<u8>, pos: int, hist: Seq<LogPartition>)
    requires
        has_lit(b, pos, list_text(hist)),
    ensures
        partitions_at(b, Some(pos)) == Some((hist, pos + list_text(hist).len())),
{
    if hist.len() == 0 {
        assert(seq![LBRACKET, RBRACKET] =~= seq![LBRACKET] + seq![RBRACKET]);
        lemma_split(b, pos, seq![LBRACKET], seq![RBRACKET]);
        lemma_lit_exact(b, pos, seq![LBRACKET]);
        lemma_lit_exact(b, pos + 1, seq![RBRACKET]);
        assert(hist =~= Seq::<LogPartition>::empty());
    } else {
        let first = hist.first();
        let others = hist.drop_first();
        let head = seq![LBRACKET] + partition_text(first);
        lemma_split(b, pos, head, tail_text(others));
        lemma_split(b, pos, seq![LBRACKET], partition_text(first));
        lemma_lit_exact(b, pos, seq![LBRACKET]);
        lemma_partition_exact(b, pos + 1, first);
        lemma_lit_absent(b, pos + 1, RBRACKET);
        let next = pos + 1 + partition_text(first).len();
        lemma_tail_exact(b, next, others);
        assert(seq![first] + others =~= hist);
    }
}

/// Three tokens that stand one after the other, right at `pos`, are found
/// one after the other.
proof fn lemma_three_lits(b: Seq<u8>, pos: int, first: u8, key: Seq<u8>, third: u8)
    requires
        has_lit(b, pos, seq![first]),
        has_lit(b, pos + 1, key),
        has_lit(b, pos + 1 + key.len(), seq![third]),
        !is_ws(first),
        !is_ws(third),
        key.len() >= 1,
        !is_ws(key[0]),
    ensures
        lit_at(b, lit_at(b, lit_at(b, Some(pos), seq![first]), key), seq![third]) == Some(
            pos + key.len() + 2,
        ),
{
    lemma_lit_exact(b, pos, seq![first]);
    lemma_lit_exact(b, pos + 1, key);
    lemma_lit_exact(b, pos + 1 + key.len(), seq![third]);
}

/// Where the pieces of the text of a description stand.
proof fn lemma_meta_layout(meta: LogMetaView)
    requires
        json_quote(meta.dirname).is_some(),
    ensures
        ({
            let b = meta_text(meta).unwrap();
            let name = json_quote(meta.dirname).unwrap();
            let at3 = 2 + dirname_key().len() as int;
            let at4 = at3 + name.len();
            let at7 = at4 + 2 + active_key().len();
            let at8 = at7 + partition_text(meta.active).len();
            let at11 = at8 + 2 + hist_key().len();
            let at12 = at11 + list_text(meta.hist).len();
            &&& meta_text(meta).is_some()
            &&& has_lit(b, 0, seq![LBRACE])
            &&& has_lit(b, 1, dirname_key())
            &&& has_lit(b, at3 - 1, seq![COLON])
            &&& has_lit(b, at3, name)
            &&& has_lit(b, at4, seq![COMMA])
            &&& has_lit(b, at4 + 1, active_key())
            &&& has_lit(b, at7 - 1, seq![COLON])
            &&& has_lit(b, at7, partition_text(meta.active))
            &&& has_lit(b, at8, seq![COMMA])
            &&& has_lit(b, at8 + 1, hist_key())
            &&& has_lit(b, at11 - 1, seq![COLON])
            &&& has_lit(b, at11, list_text(meta.hist))
            &&& has_lit(b, at12, seq![RBRACE])
            &&& b.len() == at12 + 1
        }),
{
    reveal(meta_text);
    let name = json_quote(meta.dirname).unwrap();
    let b = meta_text(meta).unwrap();
    let x1 = seq![LBRACE];
    let x2 = x1 + dirname_key();
    let x3 = x2 + seq![COLON];
    let x4 = x3 + name;
    let x5 = x4 + seq![COMMA];
    let x6 = x5 + active_key();
    let x7 = x6 + seq![COLON];
    let x8 = x7 + partition_text(meta.active);
    let x9 = x8 + seq![COMMA];
    let x10 = x9 + hist_key();
    let x11 = x10 + seq![COLON];
    let x12 = x11 + list_text(meta.hist);
    assert(b == x12 + seq![RBRACE]);
    assert(b.subrange(0, b.len() as int) =~= b);
    lemma_split(b, 0, x12, seq![RBRACE]);
    lemma_split(b, 0, x11, list_text(meta.hist));
    lemma_split(b, 0, x10, seq![COLON]);
    lemma_split(b, 0, x9, hist_key());
    lemma_split(b, 0, x8, seq![COMMA]);
    lemma_split(b, 0, x7, partition_text(meta.active));
    lemma_split(b, 0, x6, seq![COLON]);
    lemma_split(b, 0, x5, active_key());
    lemma_split(b, 0, x4, seq![COMMA]);
    lemma_split(b, 0, x3, name);
    lemma_split(b, 0, x2, seq![COLON]);
    lemma_split(b, 0, x1, dirname_key());
}

/// The text of a description that can be written reads back as the
/// description.
pub proof fn lemma_meta_parses(meta: LogMetaView)
    requires
        meta_encodable(meta),
    ensures
        meta_text(meta) matches Some(text) && parse_meta(text) == Some(meta),
{
    lemma_meta_layout(meta);
    let name = json_quote(meta.dirname).unwrap();
    let b = meta_text(meta).unwrap();
    let at3 = 2 + dirname_key().len() as int;
    let at4 = at3 + name.len();
    let at7 = at4 + 2 + active_key().len();
    let at8 = at7 + partition_text(meta.active).len();
    let at11 = at8 + 2 + hist_key().len();
    let at12 = at11 + list_text(meta.hist).len();
    lemma_three_lits(b, 0, LBRACE, dirname_key(), COLON);
    lemma_quoted_at(b, at3, meta.dirname);
    lemma_three_lits(b, at4, COMMA, active_key(), COLON);
    lemma_partition_exact(b, at7, meta.active);
    lemma_three_lits(b, at8, COMMA, hist_key(), COLON);
    lemma_list_exact(b, at11, meta.hist);
    lemma_lit_exact(b, at12, seq![RBRACE]);
    assert(skip_ws(b, b.len() as int) == b.len());
    lemma_meta_chain(b, meta, at3, at4, at7, at8, at11, at12);
}

/// Reading a description goes from token to token; where each token is
/// found in its place, the description is read.
proof fn lemma_meta_chain(
    b: Seq<u8>,
    meta: LogMetaView,
    name_at: int,
    name_end: int,
    active_at: int,
    active_end: int,
    hist_at: int,
    hist_end: int,
)
    requires
        lit_at(b, lit_at(b, lit_at(b, Some(0), seq![LBRACE]), dirname_key()), seq![COLON]) == Some(
            name_at,
        ),
        skip_ws(b, name_at) == name_at,
        parse_string(b, name_at) == Some((meta.dirname, name_end)),
        lit_at(b, lit_at(b, lit_at(b, Some(name_end), seq![COMMA]), active_key()), seq![COLON])
            == Some(active_at),
        partition_at(b, Some(active_at)) == Some((meta.active, active_end)),
        lit_at(b, lit_at(b, lit_at(b, Some(active_end), seq![COMMA]), hist_key()), seq![COLON])
            == Some(hist_at),
        partitions_at(b, Some(hist_at)) == Some((meta.hist, hist_end)),
        lit_at(b, Some(hist_end), seq![RBRACE]) == Some(hist_end + 1),
        skip_ws(b, hist_end + 1) >= b.len(),
    ensures
        parse_meta(b) == Some(meta),
{
    reveal(parse_meta);
}

/// Writes `meta`, the token of the name of its directory being `name`.
fn write_meta(meta: &LogMeta, name: &Vec<u8>) -> (text: Vec<u8>)
    requires
        json_quote(meta@.dirname) == Some(name@),
    ensures
        meta_text(meta@) == Some(text@),
{
    proof {
        reveal(meta_text);
    }
    let dirname_key = dirname_key_bytes();
    let active_key = active_key_bytes();
    let hist_key = hist_key_bytes();
    let mut out: Vec<u8> = Vec::new();
    out.push(LBRACE);
    push_bytes(&mut out, dirname_key.as_slice());
    out.push(COLON);
    push_bytes(&mut out, name.as_slice());
    out.push(COMMA);
    push_bytes(&mut out, active_key.as_slice());
    out.push(COLON);
    push_partition(&mut out, &meta.active);
    out.push(COMMA);
    push_bytes(&mut out, hist_key.as_slice());
    out.push(COLON);
    push_list(&mut out, &meta.hist);
    out.push(RBRACE);
    assert(out@ =~= meta_text(meta@).unwrap());
    out
}

/// The text of the description `meta`. A description is refused where the
/// name of its directory cannot be written and read back.
pub fn encode_meta(meta: &LogMeta) -> (r: Result<Vec<u8>>)
    ensures
        match r {
            Ok(text) => meta_encodable(meta@) && meta_text(meta@) == Some(text@) && parse_meta(
                text@,
            ) == Some(meta@),
            Err(e) => !meta_encodable(meta@) && e == KvsError::Serde(SerdeErrorKind::Unencodable),
        },
{
    let name = match quote_checked(&meta.dirname) {
        None => {
            return Err(KvsError::Serde(SerdeErrorKind::Unencodable));
        },
        Some(name) => name,
    };
    let text = write_meta(meta, &name);
    proof {
        lemma_meta_parses(meta@);
    }
    Ok(text)
}

} // verus!
