//! What a log says: the entries of its partitions, in order, each with its
//! place.

use crate::directory::Files;
use crate::entry::{is_entry_chunk, lemma_parse_entry_bounds, parse_entry, EntryView, ParsedEntry};
use crate::json::skip_ws;
use crate::meta::{lemma_meta_parses, meta_encodable, meta_text, parse_meta, LogMetaView};
use crate::names::{
    lemma_partition_file_name_injective, lemma_partition_file_name_is_not_meta, meta_file_name,
    partition_file_name,
};
use crate::partition::{LogPartition, LogPointer, PARTITION_CAPACITY};
use crate::stream::{lemma_scan_append, scan, Scan};
use vstd::prelude::*;

verus! {

/// One entry of a log, with its place.
pub struct Record {
    pub entry: EntryView,
    pub ptr: LogPointer,
}

/// The place of the entry `p`, found in the partition `file_id`.
pub open spec fn pointer_to(file_id: u128, p: ParsedEntry) -> LogPointer {
    LogPointer { file_id, offset: p.start as u64, len: (p.end - p.start) as u64 }
}

/// The entries of one partition whose file holds `data`, each with its place.
pub open spec fn file_records(data: Seq<u8>, file_id: u128) -> Seq<Record> {
    Seq::new(
        scan(data, 0).items.len(),
        |i: int|
            Record {
                entry: scan(data, 0).items[i].entry,
                ptr: pointer_to(file_id, scan(data, 0).items[i]),
            },
    )
}

/// The entries of the partitions `parts`, first partition first.
pub open spec fn parts_records(files: Files, parts: Seq<LogPartition>) -> Seq<Record>
    decreases parts.len(),
{
    if parts.len() == 0 {
        Seq::empty()
    } else {
        parts_records(files, parts.drop_last()) + file_records(
            files[parts.last().name()],
            parts.last().file_id,
        )
    }
}

/// Whether each of the partitions `parts` reads to its end.
pub open spec fn parts_clean(files: Files, parts: Seq<LogPartition>) -> bool {
    forall|i: int| 0 <= i < parts.len() ==> scan(files[(#[trigger] parts[i]).name()], 0).clean
}

/// The sum of the entry counts of `parts`.
pub open spec fn count_total(parts: Seq<LogPartition>) -> nat
    decreases parts.len(),
{
    if parts.len() == 0 {
        0
    } else {
        count_total(parts.drop_last()) + parts.last().entry_count as nat
    }
}

/// The bytes that the pointer `ptr` picks out of `data`, where `data` is
/// long enough.
pub open spec fn chunk_at(data: Seq<u8>, ptr: LogPointer) -> Option<Seq<u8>> {
    if ptr.offset + ptr.len <= data.len() {
        Some(data.subrange(ptr.offset as int, ptr.offset + ptr.len))
    } else {
        None
    }
}

/// The bytes that are read for the pointer `ptr` from `data`: those that it
/// picks out, as far as `data` goes.
pub open spec fn window_at(data: Seq<u8>, ptr: LogPointer) -> Seq<u8> {
    let from = if ptr.offset <= data.len() {
        ptr.offset as int
    } else {
        data.len() as int
    };
    let to = if ptr.offset + ptr.len <= data.len() {
        ptr.offset + ptr.len
    } else {
        data.len() as int
    };
    data.subrange(from, to)
}

/// The one entry that `bytes` holds, where they hold one entry and, around
/// it, white space only.
pub open spec fn parse_one(bytes: Seq<u8>) -> Option<EntryView> {
    match parse_entry(bytes, 0) {
        None => None,
        Some(p) => if skip_ws(bytes, p.end) >= bytes.len() {
            Some(p.entry)
        } else {
            None
        },
    }
}

/// Whether `a` and `b` list partitions with the same identifiers, in the
/// same order.
pub open spec fn same_ids(a: Seq<LogPartition>, b: Seq<LogPartition>) -> bool {
    &&& a.len() == b.len()
    &&& forall|i: int| 0 <= i < a.len() ==> (#[trigger] a[i]).file_id == b[i].file_id
}

/// What the metadata file is to say of the log `log`.
pub open spec fn meta_of(log: LogView) -> LogMetaView {
    LogMetaView { dirname: log.dirname, active: log.active, hist: log.hist }
}

/// A log as plain values: the directory it was opened in, its active
/// partition, its sealed partitions from the oldest on, and the files of
/// its directory.
pub struct LogView {
    pub dirname: Seq<char>,
    pub active: LogPartition,
    pub hist: Seq<LogPartition>,
    pub files: Files,
}

impl LogView {
    /// All partitions, the sealed ones first and the active one last.
    pub open spec fn parts(self) -> Seq<LogPartition> {
        self.hist.push(self.active)
    }

    /// Whether one of the partitions has the identifier `file_id`.
    pub open spec fn knows(self, file_id: u128) -> bool {
        exists|i: int|
            0 <= i < self.parts().len() && (#[trigger] self.parts()[i]).file_id == file_id
    }

    /// What holds of every log: no two partitions share an identifier, the
    /// file of each partition is in the directory, and every file is short
    /// enough for its positions to be machine numbers.
    pub open spec fn wf(self) -> bool {
        &&& forall|i: int, j: int|
            0 <= i < j < self.parts().len() ==> (#[trigger] self.parts()[i]).file_id != (
            #[trigger] self.parts()[j]).file_id
        &&& forall|i: int|
            0 <= i < self.parts().len() ==> self.files.contains_key(
                (#[trigger] self.parts()[i]).name(),
            )
        &&& forall|name: Seq<char>| #[trigger]
            self.files.contains_key(name) ==> self.files[name].len() <= usize::MAX
    }

    /// The entries of the log, oldest first, each with its place.
    pub open spec fn records(self) -> Seq<Record> {
        parts_records(self.files, self.parts())
    }

    /// Whether every partition reads to its end.
    pub open spec fn clean(self) -> bool {
        parts_clean(self.files, self.parts())
    }

    /// The number of entries that the partitions count, all together.
    pub open spec fn entry_total(self) -> nat {
        count_total(self.parts())
    }

    /// Whether the metadata file in the directory names the directory and the
    /// partitions of the log. The entry counts that it gives may be older
    /// than those of the log.
    pub open spec fn described(self) -> bool {
        &&& self.files.contains_key(meta_file_name())
        &&& parse_meta(self.files[meta_file_name()]) matches Some(meta) && meta.dirname
            == self.dirname && same_ids(meta.hist.push(meta.active), self.parts())
    }

    /// The log after the metadata file was written anew.
    pub open spec fn with_meta(self) -> LogView {
        LogView {
            dirname: self.dirname,
            active: self.active,
            hist: self.hist,
            files: self.files.insert(meta_file_name(), meta_text(meta_of(self)).unwrap()),
        }
    }

    /// The log after the active partition was sealed and a new, empty one
    /// with identifier `file_id` took its place, the metadata file being
    /// left as it was.
    pub open spec fn rotated(self, file_id: u128) -> LogView {
        let active = LogPartition { entry_count: 0, file_id };
        LogView {
            dirname: self.dirname,
            active,
            hist: self.hist.push(self.active),
            files: self.files.insert(active.name(), Seq::empty()),
        }
    }

    /// The place that `chunk` gets when it is added to the active partition.
    pub open spec fn next_pointer(self, chunk: Seq<u8>) -> LogPointer {
        LogPointer {
            file_id: self.active.file_id,
            offset: self.files[self.active.name()].len() as u64,
            len: chunk.len() as u64,
        }
    }

    /// The log after `chunk` was added to the active partition and counted.
    pub open spec fn with_chunk(self, chunk: Seq<u8>) -> LogView {
        LogView {
            dirname: self.dirname,
            active: LogPartition {
                entry_count: (self.active.entry_count + 1) as u16,
                file_id: self.active.file_id,
            },
            hist: self.hist,
            files: self.files.insert(self.active.name(), self.files[self.active.name()] + chunk),
        }
    }

    /// Whether a partition with identifier `file_id` can be started where the
    /// active partition is full: no file of the directory has its name.
    pub open spec fn admits(self, file_id: u128) -> bool {
        self.active.entry_count == PARTITION_CAPACITY ==> !self.files.contains_key(
            partition_file_name(file_id),
        )
    }

    /// The log after the active partition was sealed, a new, empty one with
    /// identifier `file_id` took its place, and the metadata file was
    /// written anew.
    pub open spec fn renewed(self, file_id: u128) -> LogView {
        self.rotated(file_id).with_meta()
    }

    /// The log as it is when an entry is about to be added: as it was, or,
    /// where the active partition is full, renewed with the partition
    /// `file_id`.
    pub open spec fn made_ready(self, file_id: u128) -> LogView {
        if self.active.entry_count == PARTITION_CAPACITY {
            self.renewed(file_id)
        } else {
            self
        }
    }

    /// The log after `chunk` was added to it and counted, a partition with
    /// identifier `file_id` having been started where the active one was
    /// full.
    pub open spec fn appended(self, chunk: Seq<u8>, file_id: u128) -> LogView {
        self.made_ready(file_id).with_chunk(chunk)
    }

    /// The place that `chunk` gets when it is added to the log, a partition
    /// with identifier `file_id` being started where the active one is full.
    pub open spec fn place_for(self, chunk: Seq<u8>, file_id: u128) -> LogPointer {
        self.made_ready(file_id).next_pointer(chunk)
    }

    /// The log as it is when bytes are about to be added while it is filled
    /// anew: as it was, or, where the active partition is full, rotated to
    /// the partition `file_id`.
    pub open spec fn made_room(self, file_id: u128) -> LogView {
        if self.active.entry_count == PARTITION_CAPACITY {
            self.rotated(file_id)
        } else {
            self
        }
    }

    /// The file of the partition with identifier `file_id`.
    pub open spec fn file(self, file_id: u128) -> Seq<u8> {
        self.files[LogPartition { entry_count: 0, file_id }.name()]
    }

    /// The bytes that the pointer `ptr` picks out of the log, where it
    /// points into a partition of the log and that partition is long enough.
    pub open spec fn chunk(self, ptr: LogPointer) -> Option<Seq<u8>> {
        if self.knows(ptr.file_id) {
            chunk_at(self.file(ptr.file_id), ptr)
        } else {
            None
        }
    }
}

/// The entries of the first partitions of a log, and then the first entries
/// of the partition after them, are the first entries of the log.
pub proof fn lemma_records_prefix(files: Files, parts: Seq<LogPartition>, count: int, more: int)
    requires
        0 <= count < parts.len(),
        0 <= more <= file_records(files[parts[count].name()], parts[count].file_id).len(),
    ensures
        ({
            let first = parts_records(files, parts.subrange(0, count)) + file_records(
                files[parts[count].name()],
                parts[count].file_id,
            ).subrange(0, more);
            let all = parts_records(files, parts);
            first.len() <= all.len() && all.subrange(0, first.len() as int) == first
        }),
    decreases parts.len() - count,
{
    let here = file_records(files[parts[count].name()], parts[count].file_id);
    let before = parts_records(files, parts.subrange(0, count));
    let upto = parts.subrange(0, count + 1);
    let all = parts_records(files, parts);
    assert(upto.drop_last() =~= parts.subrange(0, count));
    assert(upto.last() == parts[count]);
    assert(parts_records(files, upto) == before + here);
    if count + 1 == parts.len() {
        assert(upto =~= parts);
        assert(all.subrange(0, before.len() + more) =~= before + here.subrange(0, more));
    } else {
        lemma_records_prefix(files, parts, count + 1, 0);
        let next = file_records(files[parts[count + 1].name()], parts[count + 1].file_id);
        assert(before + here + next.subrange(0, 0) =~= before + here);
        assert(all.subrange(0, before.len() + more) =~= before + here.subrange(0, more));
    }
}

/// The entries of partitions depend only on the files of these partitions.
pub proof fn lemma_parts_frame(a: Files, b: Files, parts: Seq<LogPartition>)
    requires
        forall|i: int|
            0 <= i < parts.len() ==> a[(#[trigger] parts[i]).name()] == b[parts[i].name()],
    ensures
        parts_records(a, parts) == parts_records(b, parts),
        parts_clean(a, parts) == parts_clean(b, parts),
    decreases parts.len(),
{
    if parts.len() > 0 {
        let rest = parts.drop_last();
        assert forall|i: int| 0 <= i < rest.len() implies a[(#[trigger] rest[i]).name()]
            == b[rest[i].name()] by {
            assert(rest[i] == parts[i]);
        }
        lemma_parts_frame(a, b, rest);
        assert(parts.last() == parts[parts.len() - 1]);
    }
    if parts_clean(a, parts) {
        assert forall|i: int| 0 <= i < parts.len() implies scan(
            b[(#[trigger] parts[i]).name()],
            0,
        ).clean by {}
    }
    if parts_clean(b, parts) {
        assert forall|i: int| 0 <= i < parts.len() implies scan(
            a[(#[trigger] parts[i]).name()],
            0,
        ).clean by {}
    }
}

/// The entries of partitions do not depend on how many entries each
/// partition counts.
pub proof fn lemma_parts_ids(files: Files, a: Seq<LogPartition>, b: Seq<LogPartition>)
    requires
        same_ids(a, b),
    ensures
        parts_records(files, a) == parts_records(files, b),
        parts_clean(files, a) == parts_clean(files, b),
    decreases a.len(),
{
    if a.len() > 0 {
        let ra = a.drop_last();
        let rb = b.drop_last();
        assert forall|i: int| 0 <= i < ra.len() implies (#[trigger] ra[i]).file_id
            == rb[i].file_id by {
            assert(ra[i] == a[i]);
            assert(rb[i] == b[i]);
        }
        lemma_parts_ids(files, ra, rb);
        assert(a.last() == a[a.len() - 1]);
        assert(a[a.len() - 1].file_id == b[a.len() - 1].file_id);
    }
    if parts_clean(files, a) {
        assert forall|i: int| 0 <= i < b.len() implies scan(
            files[(#[trigger] b[i]).name()],
            0,
        ).clean by {
            assert(a[i].file_id == b[i].file_id);
        }
    }
    if parts_clean(files, b) {
        assert forall|i: int| 0 <= i < a.len() implies scan(
            files[(#[trigger] a[i]).name()],
            0,
        ).clean by {
            assert(a[i].file_id == b[i].file_id);
        }
    }
}

/// Writing the metadata file anew changes nothing in what the log says, and
/// leaves a metadata file that describes the log.
pub proof fn lemma_with_meta(log: LogView)
    requires
        log.wf(),
        meta_encodable(meta_of(log)),
        meta_text(meta_of(log)).unwrap().len() <= usize::MAX,
    ensures
        log.with_meta().wf(),
        log.with_meta().described(),
        log.with_meta().records() == log.records(),
        log.with_meta().clean() == log.clean(),
        log.with_meta().entry_total() == log.entry_total(),
{
    let post = log.with_meta();
    lemma_meta_parses(meta_of(log));
    assert(post.parts() == log.parts());
    assert forall|i: int| 0 <= i < log.parts().len() implies log.files[(
    #[trigger] log.parts()[i]).name()] == post.files[log.parts()[i].name()]
        && post.files.contains_key(log.parts()[i].name()) by {
        lemma_partition_file_name_is_not_meta(log.parts()[i].file_id);
        assert(log.files.contains_key(log.parts()[i].name()));
    }
    lemma_parts_frame(log.files, post.files, log.parts());
    assert(post.wf());
}

/// Making a log ready for an entry changes nothing in what the log says.
pub proof fn lemma_made_ready(log: LogView, file_id: u128)
    requires
        log.wf(),
        meta_encodable(meta_of(log)),
        log.made_ready(file_id).wf(),
        log.admits(file_id),
    ensures
        log.made_ready(file_id).records() == log.records(),
        log.made_ready(file_id).clean() == log.clean(),
        log.made_ready(file_id).entry_total() == log.entry_total(),
        log.described() ==> log.made_ready(file_id).described(),
{
    if log.active.entry_count == PARTITION_CAPACITY {
        let rotated = log.rotated(file_id);
        lemma_rotated(log, file_id);
        assert(log.made_ready(file_id).files.contains_key(meta_file_name()));
        lemma_with_meta(rotated);
    }
}

/// A metadata file that describes a log describes every log in the same
/// directory that has the same file and partitions with the same
/// identifiers.
pub proof fn lemma_described_still(before: LogView, after: LogView)
    requires
        before.described(),
        after.dirname == before.dirname,
        same_ids(before.parts(), after.parts()),
        after.files.contains_key(meta_file_name()),
        after.files[meta_file_name()] == before.files[meta_file_name()],
    ensures
        after.described(),
{
    let meta = parse_meta(before.files[meta_file_name()]).unwrap();
    let listed = meta.hist.push(meta.active);
    assert forall|i: int| 0 <= i < listed.len() implies (#[trigger] listed[i]).file_id
        == after.parts()[i].file_id by {
        assert(listed[i].file_id == before.parts()[i].file_id);
    }
}

/// Sealing the active partition and starting a new, empty one changes
/// nothing in what the log says.
pub proof fn lemma_rotated(pre: LogView, file_id: u128)
    requires
        pre.wf(),
        !pre.files.contains_key(LogPartition { entry_count: 0, file_id }.name()),
    ensures
        pre.rotated(file_id).wf(),
        pre.rotated(file_id).records() == pre.records(),
        pre.rotated(file_id).clean() == pre.clean(),
        pre.rotated(file_id).entry_total() == pre.entry_total(),
{
    let post = pre.rotated(file_id);
    let fresh = LogPartition { entry_count: 0, file_id };
    assert(post.parts().drop_last() =~= pre.parts());
    assert(post.parts().last() == fresh);
    assert forall|i: int| 0 <= i < pre.parts().len() implies pre.files[(
    #[trigger] pre.parts()[i]).name()] == post.files[pre.parts()[i].name()] by {
        assert(pre.files.contains_key(pre.parts()[i].name()));
    }
    lemma_parts_frame(pre.files, post.files, pre.parts());
    assert(scan(Seq::<u8>::empty(), 0) == Scan { items: Seq::empty(), clean: true });
    assert(file_records(Seq::<u8>::empty(), file_id) =~= Seq::<Record>::empty());
    assert(post.records() =~= pre.records());
    assert(post.wf()) by {
        assert forall|i: int, j: int| 0 <= i < j < post.parts().len() implies (
        #[trigger] post.parts()[i]).file_id != (#[trigger] post.parts()[j]).file_id by {
            assert(post.parts()[i] == pre.parts()[i]);
            if j == post.parts().len() - 1 {
                assert(pre.files.contains_key(pre.parts()[i].name()));
            } else {
                assert(post.parts()[j] == pre.parts()[j]);
            }
        }
        assert forall|i: int| 0 <= i < post.parts().len() implies post.files.contains_key(
            (#[trigger] post.parts()[i]).name(),
        ) by {
            if i < pre.parts().len() {
                assert(post.parts()[i] == pre.parts()[i]);
            }
        }
    }
    if pre.clean() {
        assert forall|i: int| 0 <= i < post.parts().len() implies scan(
            post.files[(#[trigger] post.parts()[i]).name()],
            0,
        ).clean by {
            if i < pre.parts().len() {
                assert(post.parts()[i] == pre.parts()[i]);
            }
        }
    }
    if post.clean() {
        assert forall|i: int| 0 <= i < pre.parts().len() implies scan(
            pre.files[(#[trigger] pre.parts()[i]).name()],
            0,
        ).clean by {
            assert(post.parts()[i] == pre.parts()[i]);
        }
    }
}

/// How many partitions a log has after an entry was added, and how many
/// entries it counts then, does not depend on the identifier of the
/// partition that was started for it.
pub proof fn lemma_added_totals(log: LogView, file_id: u128, chunk: Seq<u8>)
    ensures
        log.appended(chunk, file_id).entry_total() == log.entry_total() + 1,
        log.appended(chunk, file_id).hist.len() == if log.active.entry_count
            == PARTITION_CAPACITY {
            log.hist.len() + 1
        } else {
            log.hist.len()
        },
{
    let ready = log.made_ready(file_id);
    assert(ready.parts() == log.made_room(file_id).parts());
    let post = ready.with_chunk(chunk);
    assert(post.parts().drop_last() =~= ready.hist);
    assert(ready.parts().drop_last() =~= ready.hist);
    if log.active.entry_count == PARTITION_CAPACITY {
        assert(ready.hist =~= log.parts());
    }
}

/// Adding bytes to the active partition of a log, and counting them as an
/// entry, leaves a log.
pub proof fn lemma_with_chunk_wf(pre: LogView, chunk: Seq<u8>)
    requires
        pre.wf(),
        pre.active.entry_count < PARTITION_CAPACITY,
        pre.files[pre.active.name()].len() + chunk.len() <= usize::MAX,
    ensures
        pre.with_chunk(chunk).wf(),
        pre.with_chunk(chunk).entry_total() == pre.entry_total() + 1,
{
    let post = pre.with_chunk(chunk);
    assert(post.wf()) by {
        assert forall|i: int, j: int| 0 <= i < j < post.parts().len() implies (
        #[trigger] post.parts()[i]).file_id != (#[trigger] post.parts()[j]).file_id by {
            assert(post.parts()[i].file_id == pre.parts()[i].file_id);
            assert(post.parts()[j].file_id == pre.parts()[j].file_id);
        }
        assert forall|i: int| 0 <= i < post.parts().len() implies post.files.contains_key(
            (#[trigger] post.parts()[i]).name(),
        ) by {
            assert(post.parts()[i].file_id == pre.parts()[i].file_id);
            assert(pre.files.contains_key(pre.parts()[i].name()));
        }
    }
    assert(count_total(post.parts()) == count_total(pre.parts()) + 1) by {
        assert(post.parts().drop_last() =~= pre.parts().drop_last());
    }
}

/// Adding the text of an entry to the active partition of a log that reads
/// to its end adds that entry, at the place the text was put, to what the
/// log says.
pub proof fn lemma_with_chunk(pre: LogView, chunk: Seq<u8>, entry: EntryView)
    requires
        pre.wf(),
        pre.clean(),
        is_entry_chunk(chunk, entry),
    ensures
        pre.with_chunk(chunk).clean(),
        pre.with_chunk(chunk).records() == pre.records().push(
            Record { entry, ptr: pre.next_pointer(chunk) },
        ),
{
    let post = pre.with_chunk(chunk);
    let name = pre.active.name();
    let old_data = pre.files[name];
    let new_data = old_data + chunk;
    let last = pre.parts().len() - 1;
    assert(pre.parts()[last] == pre.active);
    assert(pre.files.contains_key(pre.parts()[last].name()));
    assert(post.parts().drop_last() =~= pre.hist);
    assert(pre.parts().drop_last() =~= pre.hist);
    assert forall|i: int| 0 <= i < pre.hist.len() implies pre.files[(#[trigger] pre.hist[i]).name()]
        == post.files[pre.hist[i].name()] by {
        assert(pre.parts()[i] == pre.hist[i]);
        assert(pre.parts()[i].file_id != pre.parts()[last].file_id);
        if pre.hist[i].name() == name {
            lemma_partition_file_name_injective(pre.hist[i].file_id, pre.active.file_id);
        }
    }
    lemma_parts_frame(pre.files, post.files, pre.hist);
    assert(scan(old_data, 0).clean);
    lemma_scan_append(old_data, 0, chunk, entry);
    let added = ParsedEntry {
        entry,
        start: old_data.len() as int,
        end: old_data.len() as int + chunk.len() as int,
    };
    lemma_parse_entry_bounds(chunk, 0);
    assert(pointer_to(pre.active.file_id, added) == pre.next_pointer(chunk));
    assert(file_records(new_data, pre.active.file_id) =~= file_records(
        old_data,
        pre.active.file_id,
    ).push(Record { entry, ptr: pre.next_pointer(chunk) }));
    assert(post.records() =~= pre.records().push(Record { entry, ptr: pre.next_pointer(chunk) }));
    assert(post.clean()) by {
        assert forall|i: int| 0 <= i < post.parts().len() implies scan(
            post.files[(#[trigger] post.parts()[i]).name()],
            0,
        ).clean by {
            if i < last {
                assert(post.parts()[i] == pre.hist[i]);
                assert(pre.parts()[i] == pre.hist[i]);
            }
        }
    }
}

} // verus!
