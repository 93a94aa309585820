//! A partition read as a run of entries.

use crate::entry::{
    is_entry_chunk, lemma_parse_entry_agree, lemma_parse_entry_bounds, lemma_parse_entry_skips,
    parse_entry, EntryView, ParsedEntry,
};
use crate::json::{
    agree, is_ws, lemma_skip_ws_agree, lemma_skip_ws_bounds, lemma_skip_ws_over, skip_ws,
};
use vstd::prelude::*;

verus! {

/// What reading a run of bytes entry by entry gives.
pub struct Scan {
    /// The entries that were read, in the order in which they stand.
    pub items: Seq<ParsedEntry>,
    /// Whether the reading went on to the end of the bytes. It is false where
    /// it stopped at bytes that are not an entry.
    pub clean: bool,
}

/// Reads `b` entry by entry from `pos` on. The reading stops where only white
/// space is left, or at the first bytes that are not an entry.
pub open spec fn scan(b: Seq<u8>, pos: int) -> Scan
    decreases b.len() - pos,
{
    if pos < 0 || pos >= b.len() || skip_ws(b, pos) >= b.len() {
        Scan { items: Seq::empty(), clean: true }
    } else {
        match parse_entry(b, pos) {
            None => Scan { items: Seq::empty(), clean: false },
            Some(p) => if p.end <= pos || p.end > b.len() {
                Scan { items: Seq::empty(), clean: false }
            } else {
                let rest = scan(b, p.end);
                Scan { items: seq![p] + rest.items, clean: rest.clean }
            },
        }
    }
}

/// Each entry that a reading gives lies within the bytes, after the place
/// where the reading began, and is found again by reading at its own start.
pub proof fn lemma_scan_items(b: Seq<u8>, pos: int)
    requires
        0 <= pos,
    ensures
        forall|i: int|
            0 <= i < scan(b, pos).items.len() ==> {
                let p = #[trigger] scan(b, pos).items[i];
                &&& pos <= p.start < p.end <= b.len()
                &&& parse_entry(b, p.start) == Some(p)
            },
        forall|i: int, j: int|
            0 <= i < j < scan(b, pos).items.len() ==> (#[trigger] scan(b, pos).items[i]).end <= (
            #[trigger] scan(b, pos).items[j]).start,
    decreases b.len() - pos,
{
    if skip_ws(b, pos) >= b.len() {
    } else {
        lemma_parse_entry_bounds(b, pos);
        match parse_entry(b, pos) {
            None => {},
            Some(p) => {
                lemma_scan_items(b, p.end);
                lemma_skip_ws_bounds(b, pos);
                lemma_skip_ws_bounds(b, p.start);
                assert(skip_ws(b, p.start) == p.start);
                lemma_parse_entry_skips(b, pos, p.start);
                assert(parse_entry(b, p.start) == Some(p));
                let rest = scan(b, p.end);
                let all = scan(b, pos).items;
                assert forall|i: int| 0 <= i < all.len() implies {
                    let q = #[trigger] all[i];
                    &&& pos <= q.start < q.end <= b.len()
                    &&& parse_entry(b, q.start) == Some(q)
                } by {
                    if i > 0 {
                        assert(all[i] == rest.items[i - 1]);
                    }
                }
                assert forall|i: int, j: int| 0 <= i < j < all.len() implies (#[trigger] all[i]).end
                    <= (#[trigger] all[j]).start by {
                    assert(all[j] == rest.items[j - 1]);
                    if i > 0 {
                        assert(all[i] == rest.items[i - 1]);
                    }
                }
            },
        }
    }
}

/// Where a run of bytes that reads to its end is followed by the text of one
/// more entry, the reading gives the same entries, and then that entry.
pub proof fn lemma_scan_append(b: Seq<u8>, pos: int, chunk: Seq<u8>, entry: EntryView)
    requires
        0 <= pos <= b.len(),
        scan(b, pos).clean,
        is_entry_chunk(chunk, entry),
    ensures
        scan(b + chunk, pos) == (Scan {
            items: scan(b, pos).items.push(
                ParsedEntry {
                    entry,
                    start: b.len() as int,
                    end: b.len() as int + chunk.len() as int,
                },
            ),
            clean: true,
        }),
    decreases b.len() - pos,
{
    let c = b + chunk;
    let added = ParsedEntry {
        entry,
        start: b.len() as int,
        end: b.len() as int + chunk.len() as int,
    };
    lemma_parse_entry_bounds(chunk, 0);
    lemma_skip_ws_bounds(chunk, 0);
    lemma_skip_ws_bounds(b, pos);
    assert(agree(chunk, 0, c, b.len() as int, chunk.len() as int));
    lemma_parse_entry_agree(chunk, 0, c, b.len() as int, chunk.len() as int);
    assert(parse_entry(c, b.len() as int) == Some(added));
    lemma_parse_entry_bounds(c, b.len() as int);
    if skip_ws(b, pos) >= b.len() {
        assert forall|i: int| pos <= i < b.len() implies is_ws(#[trigger] c[i]) by {
            assert(c[i] == b[i]);
            assert(is_ws(b[i]));
        }
        lemma_skip_ws_over(c, pos, b.len() as int);
        assert(skip_ws(c, pos) == b.len());
        lemma_skip_ws_bounds(c, b.len() as int);
        lemma_parse_entry_skips(c, pos, b.len() as int);
        assert(parse_entry(c, pos) == Some(added));
        lemma_skip_ws_bounds(c, c.len() as int);
        assert(scan(c, c.len() as int) == Scan { items: Seq::empty(), clean: true });
        assert(scan(c, pos).items =~= scan(b, pos).items.push(added));
    } else {
        lemma_parse_entry_bounds(b, pos);
        let p = parse_entry(b, pos).unwrap();
        assert(agree(b, pos, c, pos, b.len() - pos));
        lemma_parse_entry_agree(b, pos, c, pos, b.len() - pos);
        lemma_skip_ws_agree(b, pos, c, pos, b.len() - pos, pos);
        assert(parse_entry(c, pos) == Some(p));
        lemma_scan_append(b, p.end, chunk, entry);
        assert(scan(c, pos).items =~= scan(b, pos).items.push(added));
    }
}

} // verus!
