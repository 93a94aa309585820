//! What the entries of a log come to: the keys that are held, with their
//! values and with the places of the entries that gave them.

use crate::compaction::entries_of;
use crate::entry::{is_entry_chunk, lemma_parse_entry_agree, Entry, EntryView};
use crate::json::agree;
use crate::partition::LogPointer;
use crate::records::{chunk_at, file_records, parts_records, LogView, Record};
use crate::stream::{lemma_scan_items, scan};
use vstd::prelude::*;

verus! {

/// The keys and values of a store.
pub type Contents = Map<Seq<char>, Seq<char>>;

/// The keys of a store, each with the place of the entry that gave it its
/// value.
pub type Places = Map<Seq<char>, LogPointer>;

/// The keys and values after `entry` was applied to `held`.
pub open spec fn apply_entry(held: Contents, entry: EntryView) -> Contents {
    match entry {
        Entry::Put(key, value) => held.insert(key, value),
        Entry::Remove(key) => held.remove(key),
    }
}

/// The keys and values that `entries` come to, applied first to last to a
/// store that holds nothing.
pub open spec fn contents(entries: Seq<EntryView>) -> Contents
    decreases entries.len(),
{
    if entries.len() == 0 {
        Map::empty()
    } else {
        apply_entry(contents(entries.drop_last()), entries.last())
    }
}

/// The places after `record` was applied to `held`.
pub open spec fn apply_record(held: Places, record: Record) -> Places {
    match record.entry {
        Entry::Put(key, _) => held.insert(key, record.ptr),
        Entry::Remove(key) => held.remove(key),
    }
}

/// The places that `records` come to, applied first to last to an index that
/// holds nothing.
pub open spec fn replay(records: Seq<Record>) -> Places
    decreases records.len(),
{
    if records.len() == 0 {
        Map::empty()
    } else {
        apply_record(replay(records.drop_last()), records.last())
    }
}

/// Whether `pointers` are the places of `places`, each once, `order` giving
/// the key of each.
pub open spec fn is_listing(
    order: Seq<Seq<char>>,
    pointers: Seq<LogPointer>,
    places: Places,
) -> bool {
    &&& order.len() == pointers.len()
    &&& forall|i: int|
        0 <= i < order.len() ==> places.contains_key(#[trigger] order[i]) && pointers[i]
            == places[order[i]]
    &&& forall|i: int, j: int|
        0 <= i < j < order.len() ==> #[trigger] order[i] != #[trigger] order[j]
    &&& forall|key: Seq<char>| #[trigger]
        places.contains_key(key) ==> exists|i: int| 0 <= i < order.len() && order[i] == key
}

/// Whether `pointers` are the places of `places`, each once, in some order.
pub open spec fn lists_places(pointers: Seq<LogPointer>, places: Places) -> bool {
    exists|order: Seq<Seq<char>>| is_listing(order, pointers, places)
}

/// Whether `record` is in `log` at the place it names: the place is in a
/// partition of the log, and the bytes there are the text of the entry of
/// the record and nothing else.
pub open spec fn placed(log: LogView, record: Record) -> bool {
    &&& log.knows(record.ptr.file_id)
    &&& log.chunk(record.ptr) matches Some(chunk) && is_entry_chunk(chunk, record.entry)
}

/// One record more is applied last.
pub proof fn lemma_replay_push(records: Seq<Record>, record: Record)
    ensures
        replay(records.push(record)) == apply_record(replay(records), record),
        contents(entries_of(records.push(record))) == apply_entry(
            contents(entries_of(records)),
            record.entry,
        ),
        entries_of(records.push(record)) == entries_of(records).push(record.entry),
{
    let more = records.push(record);
    assert(more.drop_last() =~= records);
    assert(entries_of(more) =~= entries_of(records).push(record.entry));
    assert(entries_of(more).drop_last() =~= entries_of(records));
}

/// The index that records come to holds the keys that their entries come to
/// hold, and for each key, the place of a record that put the value that the
/// key has.
pub proof fn lemma_replay_points(records: Seq<Record>)
    ensures
        replay(records).dom() == contents(entries_of(records)).dom(),
        forall|key: Seq<char>| #[trigger]
            replay(records).contains_key(key) ==> exists|i: int|
                0 <= i < records.len() && #[trigger] records[i] == (Record {
                    entry: Entry::Put(key, contents(entries_of(records))[key]),
                    ptr: replay(records)[key],
                }),
    decreases records.len(),
{
    if records.len() == 0 {
        assert(entries_of(records) =~= Seq::<EntryView>::empty());
        assert(replay(records).dom() =~= contents(entries_of(records)).dom());
    } else {
        let rest = records.drop_last();
        let last = records.last();
        lemma_replay_points(rest);
        assert(records =~= rest.push(last));
        lemma_replay_push(rest, last);
        let held = contents(entries_of(rest));
        let now = contents(entries_of(records));
        assert(replay(records).dom() =~= now.dom());
        assert forall|key: Seq<char>| #[trigger] replay(records).contains_key(key) implies exists|
            i: int,
        |
            0 <= i < records.len() && #[trigger] records[i] == (Record {
                entry: Entry::Put(key, now[key]),
                ptr: replay(records)[key],
            }) by {
            if last.entry is Put && last.entry->Put_0 == key {
                assert(records[records.len() - 1] == Record {
                    entry: Entry::Put(key, now[key]),
                    ptr: replay(records)[key],
                });
            } else {
                assert(replay(rest).contains_key(key));
                let i = choose|i: int|
                    0 <= i < rest.len() && #[trigger] rest[i] == (Record {
                        entry: Entry::Put(key, held[key]),
                        ptr: replay(rest)[key],
                    });
                assert(records[i] == rest[i]);
            }
        }
    }
}

/// Each record of one partition is in the file of the partition at the
/// place it names.
pub proof fn lemma_file_records_placed(data: Seq<u8>, file_id: u128)
    requires
        data.len() <= usize::MAX,
    ensures
        forall|i: int|
            0 <= i < file_records(data, file_id).len() ==> {
                let r = #[trigger] file_records(data, file_id)[i];
                &&& r.ptr.file_id == file_id
                &&& chunk_at(data, r.ptr) matches Some(chunk) && is_entry_chunk(chunk, r.entry)
            },
{
    lemma_scan_items(data, 0);
    assert forall|i: int| 0 <= i < file_records(data, file_id).len() implies {
        let r = #[trigger] file_records(data, file_id)[i];
        &&& r.ptr.file_id == file_id
        &&& chunk_at(data, r.ptr) matches Some(chunk) && is_entry_chunk(chunk, r.entry)
    } by {
        let p = scan(data, 0).items[i];
        let r = file_records(data, file_id)[i];
        let n = p.end - p.start;
        let chunk = data.subrange(p.start, p.end);
        assert(r.ptr.offset == p.start);
        assert(r.ptr.len == n);
        assert(chunk_at(data, r.ptr) == Some(chunk));
        assert(agree(data, p.start, chunk, 0, n));
        lemma_parse_entry_agree(data, p.start, chunk, 0, n);
    }
}

/// Each record of the first `count` partitions of a log is in the log at
/// the place it names.
pub proof fn lemma_parts_placed(log: LogView, count: int)
    requires
        log.wf(),
        0 <= count <= log.parts().len(),
    ensures
        forall|i: int|
            0 <= i < parts_records(log.files, log.parts().subrange(0, count)).len() ==> placed(
                log,
                #[trigger] parts_records(log.files, log.parts().subrange(0, count))[i],
            ),
    decreases count,
{
    let parts = log.parts().subrange(0, count);
    if count > 0 {
        lemma_parts_placed(log, count - 1);
        let rest = log.parts().subrange(0, count - 1);
        let part = log.parts()[count - 1];
        assert(parts.drop_last() =~= rest);
        assert(parts.last() == part);
        let data = log.files[part.name()];
        assert(log.files.contains_key(log.parts()[count - 1].name()));
        lemma_file_records_placed(data, part.file_id);
        let earlier = parts_records(log.files, rest);
        let here = file_records(data, part.file_id);
        assert forall|i: int| 0 <= i < parts_records(log.files, parts).len() implies placed(
            log,
            #[trigger] parts_records(log.files, parts)[i],
        ) by {
            let r = parts_records(log.files, parts)[i];
            if i < earlier.len() {
                assert(r == earlier[i]);
            } else {
                assert(r == here[i - earlier.len()]);
                assert(log.parts()[count - 1].file_id == r.ptr.file_id);
                assert(log.file(r.ptr.file_id) == data);
            }
        }
    }
}

/// Each record of a log is in the log at the place it names.
pub proof fn lemma_records_placed(log: LogView)
    requires
        log.wf(),
    ensures
        forall|i: int| 0 <= i < log.records().len() ==> placed(log, #[trigger] log.records()[i]),
{
    lemma_parts_placed(log, log.parts().len() as int);
    assert(log.parts().subrange(0, log.parts().len() as int) =~= log.parts());
}

/// Entries that put each key of `held` once, with the value it has in
/// `held`, and do nothing else, come to `held`.
pub proof fn lemma_contents_of_puts(entries: Seq<EntryView>, keys: Seq<Seq<char>>, held: Contents)
    requires
        entries.len() == keys.len(),
        forall|i: int| 0 <= i < keys.len() ==> held.contains_key(#[trigger] keys[i]),
        forall|i: int|
            0 <= i < keys.len() ==> #[trigger] entries[i] == Entry::<Seq<char>, Seq<char>>::Put(
                keys[i],
                held[keys[i]],
            ),
        forall|key: Seq<char>| #[trigger]
            held.contains_key(key) ==> exists|i: int| 0 <= i < keys.len() && keys[i] == key,
    ensures
        contents(entries) == held,
{
    lemma_contents_prefix(entries, keys, held, entries.len() as int);
    assert(entries.subrange(0, entries.len() as int) =~= entries);
    let got = contents(entries);
    assert forall|key: Seq<char>| got.contains_key(key) <==> held.contains_key(key) by {
        if held.contains_key(key) {
            let i = choose|i: int| 0 <= i < keys.len() && keys[i] == key;
            assert(keys[i] == key);
        }
    }
    assert(got =~= held);
}

/// The first `count` of entries that put keys with the values they have in
/// `held` come to the keys that they put, with these values.
proof fn lemma_contents_prefix(
    entries: Seq<EntryView>,
    keys: Seq<Seq<char>>,
    held: Contents,
    count: int,
)
    requires
        entries.len() == keys.len(),
        0 <= count <= entries.len(),
        forall|i: int|
            0 <= i < keys.len() ==> #[trigger] entries[i] == Entry::<Seq<char>, Seq<char>>::Put(
                keys[i],
                held[keys[i]],
            ),
    ensures
        forall|key: Seq<char>|
            contents(entries.subrange(0, count)).contains_key(key) <==> exists|i: int|
                0 <= i < count && #[trigger] keys[i] == key,
        forall|key: Seq<char>| #[trigger]
            contents(entries.subrange(0, count)).contains_key(key) ==> contents(
                entries.subrange(0, count),
            )[key] == held[key],
    decreases count,
{
    let now = entries.subrange(0, count);
    if count == 0 {
    } else {
        lemma_contents_prefix(entries, keys, held, count - 1);
        let rest = entries.subrange(0, count - 1);
        assert(now.drop_last() =~= rest);
        assert(now.last() == entries[count - 1]);
        let key_last = keys[count - 1];
        assert forall|key: Seq<char>| contents(now).contains_key(key) <==> exists|i: int|
            0 <= i < count && #[trigger] keys[i] == key by {
            if contents(now).contains_key(key) {
                if key == key_last {
                    assert(keys[count - 1] == key);
                } else {
                    assert(contents(rest).contains_key(key));
                    let i = choose|i: int| 0 <= i < count - 1 && #[trigger] keys[i] == key;
                    assert(keys[i] == key);
                }
            }
            if exists|i: int| 0 <= i < count && #[trigger] keys[i] == key {
                let i = choose|i: int| 0 <= i < count && #[trigger] keys[i] == key;
                if i < count - 1 {
                    assert(keys[i] == key);
                    assert(contents(rest).contains_key(key));
                }
            }
        }
        assert forall|key: Seq<char>| #[trigger] contents(now).contains_key(key) implies contents(
            now,
        )[key] == held[key] by {
            assert(entries[count - 1] == Entry::<Seq<char>, Seq<char>>::Put(
                key_last,
                held[key_last],
            ));
            if key != key_last {
                assert(contents(rest).contains_key(key));
            }
        }
    }
}

} // verus!
