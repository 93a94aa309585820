//! What compacting a log comes to: the bytes of the entries that are kept
//! are written, in the order given, into a log that starts empty and takes
//! the place of the old one.

use crate::directory::Files;
use crate::entry::{lemma_parse_entry_bounds, parse_entry, EntryView};
use crate::error::IoErrorKind;
use crate::partition::{LogPartition, LogPointer, PARTITION_CAPACITY};
use crate::records::{lemma_rotated, lemma_with_chunk, LogView, Record};
use vstd::prelude::*;

verus! {

/// Whether each of the pointers `pointers` picks bytes out of `log`.
pub open spec fn all_readable(log: LogView, pointers: Seq<LogPointer>) -> bool {
    forall|i: int| 0 <= i < pointers.len() ==> log.chunk(#[trigger] pointers[i]).is_some()
}

/// The bytes that the pointers `pointers` pick out of `log`, in their order.
pub open spec fn chunks_of(log: LogView, pointers: Seq<LogPointer>) -> Seq<Seq<u8>> {
    Seq::new(pointers.len(), |i: int| log.chunk(pointers[i]).unwrap())
}

/// Why the pointer `ptr`, which picks no bytes out of `log`, cannot be read:
/// it points to no partition of the log, or beyond the end of one.
pub open spec fn read_error(log: LogView, ptr: LogPointer) -> IoErrorKind {
    if log.knows(ptr.file_id) {
        IoErrorKind::UnexpectedEof
    } else {
        IoErrorKind::NotFound
    }
}

/// Whether `chunk` is the text of one entry and nothing else.
pub open spec fn is_chunk(chunk: Seq<u8>) -> bool {
    parse_entry(chunk, 0) matches Some(p) && p.start == 0 && p.end == chunk.len()
}

/// The entry that `chunk` is the text of.
pub open spec fn chunk_entry(chunk: Seq<u8>) -> EntryView {
    parse_entry(chunk, 0).unwrap().entry
}

/// Whether each of `chunks` is the text of one entry and nothing else.
pub open spec fn all_chunks(chunks: Seq<Seq<u8>>) -> bool {
    forall|i: int| 0 <= i < chunks.len() ==> is_chunk(#[trigger] chunks[i])
}

/// The entries that `chunks` are the texts of.
pub open spec fn chunk_entries(chunks: Seq<Seq<u8>>) -> Seq<EntryView> {
    Seq::new(chunks.len(), |i: int| chunk_entry(chunks[i]))
}

/// What the records `records` say, without their places.
pub open spec fn entries_of(records: Seq<Record>) -> Seq<EntryView> {
    Seq::new(records.len(), |i: int| records[i].entry)
}

/// The identifiers of the partitions `parts`.
pub open spec fn ids_of(parts: Seq<LogPartition>) -> Seq<u128> {
    Seq::new(parts.len(), |i: int| parts[i].file_id)
}

/// The names of the files of the partitions `parts`.
pub open spec fn part_names(parts: Seq<LogPartition>) -> Set<Seq<char>> {
    Set::new(
        |name: Seq<char>|
            exists|i: int| 0 <= i < parts.len() && (#[trigger] parts[i]).name() == name,
    )
}

/// A log that holds nothing yet, in the directory of `pre`: its one
/// partition is `file_id`, empty, beside the files that `pre` had.
pub open spec fn fresh_start(pre: LogView, file_id: u128) -> LogView {
    let active = LogPartition { entry_count: 0, file_id };
    LogView {
        dirname: pre.dirname,
        active,
        hist: Seq::empty(),
        files: pre.files.insert(active.name(), Seq::empty()),
    }
}

/// The log `start` after `chunks` were added to it one by one, each counted
/// as an entry. A partition that is full is sealed before the next chunk is
/// added; the partition that follows it is the next of `ids`.
pub open spec fn refill(start: LogView, chunks: Seq<Seq<u8>>, ids: Seq<u128>) -> LogView
    decreases chunks.len(),
{
    if chunks.len() == 0 {
        start
    } else {
        let prev = refill(start, chunks.drop_last(), ids);
        prev.made_room(ids[prev.hist.len() as int + 1]).with_chunk(chunks.last())
    }
}

/// Whether `post` is what compacting `pre` gives, for the bytes `chunks` that
/// are kept: a log whose partitions are all new, filled with `chunks` in
/// their order, in a directory whose metadata file describes the new log
/// and that the files of the partitions of `pre` have left.
pub open spec fn compacted(pre: LogView, post: LogView, chunks: Seq<Seq<u8>>) -> bool {
    &&& forall|i: int|
        0 <= i < post.parts().len() ==> !pre.files.contains_key((#[trigger] post.parts()[i]).name())
    &&& post.dirname == filled(pre, post, chunks).dirname
    &&& post.active == filled(pre, post, chunks).active
    &&& post.hist == filled(pre, post, chunks).hist
    &&& post.files == filled(pre, post, chunks).with_meta().files.remove_keys(
        part_names(pre.parts()),
    )
}

/// The log that starts empty beside the files of `pre`, has the partitions
/// of `post`, and is filled with `chunks`.
pub open spec fn filled(pre: LogView, post: LogView, chunks: Seq<Seq<u8>>) -> LogView {
    refill(fresh_start(pre, ids_of(post.parts())[0]), chunks, ids_of(post.parts()))
}

/// Whether the files of `now` are those of `pre` and, beside them, the files
/// of the partitions of `now`, none of which `pre` had.
pub open spec fn grown_from(pre: Files, now: LogView) -> bool {
    &&& forall|name: Seq<char>| #[trigger]
        pre.contains_key(name) ==> now.files.contains_key(name) && now.files[name] == pre[name]
    &&& forall|name: Seq<char>| #[trigger]
        now.files.contains_key(name) && !pre.contains_key(name) ==> part_names(
            now.parts(),
        ).contains(name)
    &&& forall|i: int|
        0 <= i < now.parts().len() ==> !pre.contains_key((#[trigger] now.parts()[i]).name())
}

/// Filling a log asks for the identifiers of the partitions it comes to
/// have, and for no others.
pub proof fn lemma_refill_ids(start: LogView, chunks: Seq<Seq<u8>>, a: Seq<u128>, b: Seq<u128>)
    requires
        forall|j: int| 0 <= j <= refill(start, chunks, a).hist.len() ==> a[j] == b[j],
    ensures
        refill(start, chunks, a) == refill(start, chunks, b),
        start.hist.len() <= refill(start, chunks, a).hist.len(),
    decreases chunks.len(),
{
    if chunks.len() > 0 {
        let rest = chunks.drop_last();
        lemma_refill_hist_grows(start, rest, a);
        let prev = refill(start, rest, a);
        assert(prev.hist.len() <= refill(start, chunks, a).hist.len());
        lemma_refill_ids(start, rest, a, b);
    }
}

/// Filling a log takes no sealed partition away.
pub proof fn lemma_refill_hist_grows(start: LogView, chunks: Seq<Seq<u8>>, ids: Seq<u128>)
    ensures
        start.hist.len() <= refill(start, chunks, ids).hist.len(),
    decreases chunks.len(),
{
    if chunks.len() > 0 {
        lemma_refill_hist_grows(start, chunks.drop_last(), ids);
    }
}

/// One more chunk added to a filled log gives the log filled with one more
/// chunk.
pub proof fn lemma_refill_step(
    start: LogView,
    chunks: Seq<Seq<u8>>,
    now: LogView,
    chunk: Seq<u8>,
    next: LogView,
)
    requires
        now == refill(start, chunks, ids_of(now.parts())),
        next == now.made_room(next.active.file_id).with_chunk(chunk),
    ensures
        next == refill(start, chunks.push(chunk), ids_of(next.parts())),
{
    let a = ids_of(now.parts());
    let b = ids_of(next.parts());
    assert forall|j: int| 0 <= j <= now.hist.len() implies a[j] == b[j] by {
        if now.active.entry_count == PARTITION_CAPACITY {
            assert(next.parts()[j] == now.parts()[j]);
        } else {
            if j < now.hist.len() {
                assert(next.parts()[j] == now.parts()[j]);
            }
        }
    }
    lemma_refill_ids(start, chunks, a, b);
    let more = chunks.push(chunk);
    assert(more.drop_last() =~= chunks);
    assert(more.last() == chunk);
    if now.active.entry_count == PARTITION_CAPACITY {
        assert(b[now.hist.len() as int + 1] == next.active.file_id);
    }
}

/// The names of the files of partitions, one partition more.
pub proof fn lemma_part_names_push(parts: Seq<LogPartition>, p: LogPartition)
    ensures
        part_names(parts.push(p)) == part_names(parts).insert(p.name()),
{
    let more = parts.push(p);
    assert forall|name: Seq<char>| part_names(more).contains(name) <==> part_names(parts).insert(
        p.name(),
    ).contains(name) by {
        if part_names(more).contains(name) {
            let i = choose|i: int| 0 <= i < more.len() && (#[trigger] more[i]).name() == name;
            if i < parts.len() {
                assert(parts[i].name() == name);
            }
        }
        if part_names(parts).contains(name) {
            let i = choose|i: int| 0 <= i < parts.len() && (#[trigger] parts[i]).name() == name;
            assert(more[i].name() == name);
        }
        if name == p.name() {
            assert(more[parts.len() as int].name() == name);
        }
    }
    assert(part_names(more) =~= part_names(parts).insert(p.name()));
}

/// The names of the files of partitions do not depend on how many entries
/// each partition counts.
pub proof fn lemma_part_names_counts(a: Seq<LogPartition>, b: Seq<LogPartition>)
    requires
        a.len() == b.len(),
        forall|i: int| 0 <= i < a.len() ==> (#[trigger] a[i]).file_id == b[i].file_id,
    ensures
        part_names(a) == part_names(b),
{
    assert forall|name: Seq<char>| part_names(a).contains(name) <==> part_names(b).contains(
        name,
    ) by {
        if part_names(a).contains(name) {
            let i = choose|i: int| 0 <= i < a.len() && (#[trigger] a[i]).name() == name;
            assert(b[i].name() == name);
        }
        if part_names(b).contains(name) {
            let i = choose|i: int| 0 <= i < b.len() && (#[trigger] b[i]).name() == name;
            assert(a[i].file_id == b[i].file_id);
            assert(a[i].name() == name);
        }
    }
    assert(part_names(a) =~= part_names(b));
}

/// A log that grew beside the files of `pre` still does so after one more
/// chunk was added to it.
pub proof fn lemma_grown_step(pre: Files, now: LogView, chunk: Seq<u8>, next: LogView)
    requires
        now.wf(),
        grown_from(pre, now),
        now.admits(next.active.file_id),
        next == now.made_room(next.active.file_id).with_chunk(chunk),
    ensures
        grown_from(pre, next),
{
    let ready = now.made_room(next.active.file_id);
    let last = now.parts().len() - 1;
    assert(now.parts()[last] == now.active);
    if now.active.entry_count == PARTITION_CAPACITY {
        lemma_part_names_push(now.parts(), ready.active);
        assert(ready.parts() =~= now.parts().push(ready.active));
    }
    assert(part_names(next.parts()) == part_names(ready.parts())) by {
        assert forall|i: int| 0 <= i < next.parts().len() implies (
        #[trigger] next.parts()[i]).file_id == ready.parts()[i].file_id by {
            if i < next.hist.len() {
                assert(next.parts()[i] == ready.parts()[i]);
            }
        }
        lemma_part_names_counts(next.parts(), ready.parts());
    }
    let active_name = ready.active.name();
    assert(!pre.contains_key(active_name)) by {
        if now.active.entry_count == PARTITION_CAPACITY {
            if pre.contains_key(active_name) {
                assert(now.files.contains_key(active_name));
            }
        } else {
            assert(now.parts()[last].name() == active_name);
        }
    }
    assert(part_names(ready.parts()).contains(active_name)) by {
        let n = ready.parts().len() - 1;
        assert(ready.parts()[n].name() == active_name);
    }
    assert forall|name: Seq<char>| #[trigger]
        next.files.contains_key(name) && !pre.contains_key(name) implies part_names(
        next.parts(),
    ).contains(name) by {
        if name != active_name {
            assert(ready.files.contains_key(name));
            if now.active.entry_count == PARTITION_CAPACITY {
                assert(now.files.contains_key(name));
                assert(part_names(now.parts()).contains(name));
            }
        }
    }
    assert forall|i: int| 0 <= i < next.parts().len() implies !pre.contains_key(
        (#[trigger] next.parts()[i]).name(),
    ) by {
        if i < next.hist.len() {
            assert(next.parts()[i] == ready.parts()[i]);
            if now.active.entry_count == PARTITION_CAPACITY {
                assert(ready.parts()[i] == now.parts()[i]);
            } else {
                assert(ready.parts()[i] == now.parts()[i]);
            }
        }
    }
}

/// Taking the files of its own partitions out of a log that grew beside the
/// files of `pre` leaves the files of `pre`.
pub proof fn lemma_grown_undone(pre: Files, now: LogView)
    requires
        grown_from(pre, now),
    ensures
        now.files.remove_keys(part_names(now.parts())) == pre,
{
    let left = now.files.remove_keys(part_names(now.parts()));
    assert forall|name: Seq<char>| left.contains_key(name) <==> pre.contains_key(name) by {
        if pre.contains_key(name) {
            if part_names(now.parts()).contains(name) {
                let i = choose|i: int|
                    0 <= i < now.parts().len() && (#[trigger] now.parts()[i]).name() == name;
                assert(!pre.contains_key(now.parts()[i].name()));
            }
        }
    }
    assert(left =~= pre);
}

/// What a filled log says: where every chunk is the text of an entry, the
/// log after one more chunk reads to its end and says what it said before,
/// and then the entry of that chunk.
pub proof fn lemma_said_step(now: LogView, chunk: Seq<u8>, next: LogView)
    requires
        now.wf(),
        now.clean(),
        is_chunk(chunk),
        now.admits(next.active.file_id),
        next == now.made_room(next.active.file_id).with_chunk(chunk),
    ensures
        next.clean(),
        entries_of(next.records()) == entries_of(now.records()).push(chunk_entry(chunk)),
{
    let ready = now.made_room(next.active.file_id);
    if now.active.entry_count == PARTITION_CAPACITY {
        lemma_rotated(now, next.active.file_id);
    }
    lemma_parse_entry_bounds(chunk, 0);
    lemma_with_chunk(ready, chunk, chunk_entry(chunk));
    assert(entries_of(next.records()) =~= entries_of(now.records()).push(chunk_entry(chunk)));
}

} // verus!
