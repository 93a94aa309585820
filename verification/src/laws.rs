//! What holds of every store, whatever was done to it.

use crate::compaction::{
    all_chunks, all_readable, chunk_entries, chunk_entry, chunks_of, entries_of, is_chunk,
};
use crate::directory::Files;
use crate::entry::{lemma_parse_entry_bounds, put, Entry, EntryView};
use crate::error::KvsError;
use crate::log::{open_error, opened};
use crate::partition::LogPointer;
use crate::records::{lemma_parts_ids, meta_of, LogView, Record};
use crate::recovery::log_of;
use crate::replay::{
    apply_entry, apply_record, contents, is_listing, lemma_contents_of_puts, lemma_replay_push,
    lists_places, replay, Contents,
};
use crate::store::{holds, unreadable, KvStore};
use vstd::prelude::*;

verus! {

/// After a key was given a value, the store holds that value for the key,
/// whatever was done before.
pub proof fn law_get_after_set(entries: Seq<EntryView>, key: Seq<char>, value: Seq<char>)
    ensures
        contents(entries.push(Entry::Put(key, value))).contains_key(key),
        contents(entries.push(Entry::Put(key, value)))[key] == value,
{
    let more = entries.push(Entry::Put(key, value));
    assert(more.drop_last() =~= entries);
}

/// After a key was given a value and then another, the store holds the
/// second value for the key.
pub proof fn law_last_set_wins(
    entries: Seq<EntryView>,
    key: Seq<char>,
    first: Seq<char>,
    second: Seq<char>,
)
    ensures
        contents(entries.push(Entry::Put(key, first)).push(Entry::Put(key, second))).contains_key(
            key,
        ),
        contents(entries.push(Entry::Put(key, first)).push(Entry::Put(key, second)))[key]
            == second,
{
    law_get_after_set(entries.push(Entry::Put(key, first)), key, second);
}

/// After a key was given a value and then taken out, the store does not hold
/// the key: its value is not found, and it cannot be taken out again.
pub proof fn law_removed_is_gone(entries: Seq<EntryView>, key: Seq<char>, value: Seq<char>)
    ensures
        !contents(entries.push(Entry::Put(key, value)).push(Entry::Remove(key))).contains_key(key),
{
    let put = entries.push(Entry::Put(key, value));
    let gone = put.push(Entry::Remove(key));
    assert(gone.drop_last() =~= put);
}

/// A store does not hold a key that was never given a value.
pub proof fn law_never_set_is_absent(entries: Seq<EntryView>, key: Seq<char>)
    requires
        forall|i: int|
            0 <= i < entries.len() ==> !((#[trigger] entries[i]) is Put && entries[i]->Put_0
                == key),
    ensures
        !contents(entries).contains_key(key),
    decreases entries.len(),
{
    if entries.len() > 0 {
        let rest = entries.drop_last();
        assert forall|i: int| 0 <= i < rest.len() implies !((#[trigger] rest[i]) is Put
            && rest[i]->Put_0 == key) by {
            assert(rest[i] == entries[i]);
        }
        law_never_set_is_absent(rest, key);
        assert(entries.last() == entries[entries.len() - 1]);
    }
}

/// Whether `key` is given a value by the entry at `at`, and is not taken out
/// by any entry after it.
pub open spec fn set_and_kept(entries: Seq<EntryView>, key: Seq<char>, at: int) -> bool {
    &&& 0 <= at < entries.len()
    &&& entries[at] is Put
    &&& entries[at]->Put_0 == key
    &&& forall|j: int|
        at < j < entries.len() ==> !((#[trigger] entries[j]) is Remove && entries[j]->Remove_0
            == key)
}

/// The keys that a store holds are those that were given a value and not
/// taken out afterwards.
pub proof fn law_live_keys(entries: Seq<EntryView>, key: Seq<char>)
    ensures
        contents(entries).contains_key(key) <==> exists|at: int| set_and_kept(entries, key, at),
    decreases entries.len(),
{
    if entries.len() > 0 {
        let rest = entries.drop_last();
        let last = entries.last();
        let n = entries.len() - 1;
        law_live_keys(rest, key);
        if contents(entries).contains_key(key) {
            if last is Put && last->Put_0 == key {
                assert(set_and_kept(entries, key, n));
            } else {
                assert(contents(rest).contains_key(key));
                let at = choose|at: int| set_and_kept(rest, key, at);
                assert(entries[at] == rest[at]);
                assert forall|j: int| at < j < entries.len() implies !((#[trigger] entries[j])
                    is Remove && entries[j]->Remove_0 == key) by {
                    if j < n {
                        assert(entries[j] == rest[j]);
                    }
                }
                assert(set_and_kept(entries, key, at));
            }
        }
        if exists|at: int| set_and_kept(entries, key, at) {
            let at = choose|at: int| set_and_kept(entries, key, at);
            if at < n {
                assert(rest[at] == entries[at]);
                assert forall|j: int| at < j < rest.len() implies !((#[trigger] rest[j]) is Remove
                    && rest[j]->Remove_0 == key) by {
                    assert(rest[j] == entries[j]);
                }
                assert(set_and_kept(rest, key, at));
                assert(entries[n] == last);
            }
        }
    }
}

/// A log that is opened from a directory whose metadata file describes
/// another log says what that other log says.
pub proof fn lemma_recovered(before: LogView, dirname: Seq<char>, after: LogView)
    requires
        before.described(),
        opened(dirname, before.files, after),
    ensures
        after.records() == before.records(),
        after.clean() == before.clean(),
{
    let meta = meta_of(after);
    let listed = meta.hist.push(meta.active);
    assert(listed == after.parts());
    lemma_parts_ids(before.files, after.parts(), before.parts());
}

/// A store that is opened from the directory of another store, as that
/// directory is at any time, holds the keys and values that the other holds,
/// and its index holds the places that the index of the other holds. So a
/// store that ends without having been closed loses nothing.
pub proof fn law_recovery(before: &KvStore, dirname: Seq<char>, after: &KvStore)
    requires
        before.wf(),
        after.wf(),
        opened(dirname, before.log_view().files, after.log_view()),
    ensures
        after@ == before@,
        after.places() == before.places(),
        after.log_view().records() == before.log_view().records(),
{
    before.lemma_view();
    after.lemma_view();
    lemma_recovered(before.log_view(), dirname, after.log_view());
}

/// From files that hold a store, the store opens: opening does not fail,
/// and the store that is opened holds what the files hold.
pub proof fn law_held_is_opened(
    files: Files,
    held: Contents,
    dirname: Seq<char>,
    e: KvsError,
    store: &KvStore,
)
    requires
        holds(files, held),
    ensures
        !open_error(dirname, files, e),
        !unreadable(files, e),
        store.wf() && opened(dirname, files, store.log_view()) ==> store@ == held,
{
    store.lemma_view();
    if store.wf() && opened(dirname, files, store.log_view()) {
        assert(store.log_view() == log_of(files));
    }
}

/// A store that was closed and opened again from the directory it left
/// holds the keys and values it held, and its index holds the places it
/// held.
pub proof fn law_reopen(before: &KvStore, dirname: Seq<char>, after: &KvStore)
    requires
        before.wf(),
        after.wf(),
        opened(dirname, before.log_view().with_meta().files, after.log_view()),
    ensures
        after@ == before@,
        after.places() == before.places(),
        after.log_view().records() == before.log_view().records(),
{
    before.lemma_view();
    after.lemma_view();
    let closed = before.log_view().with_meta();
    before.lemma_closed();
    lemma_recovered(closed, dirname, after.log_view());
}

/// Compacting keeps what the store holds. Where the log of a store is
/// replaced by a log that says what the bytes at the places of the index
/// say, each place taken once, then the new log comes to the keys and values
/// that the store holds.
pub proof fn law_compaction_keeps_contents(
    store: &KvStore,
    pointers: Seq<LogPointer>,
    post: LogView,
)
    requires
        store.wf(),
        lists_places(pointers, store.places()),
        all_chunks(chunks_of(store.log_view(), pointers)) ==> entries_of(post.records())
            == chunk_entries(chunks_of(store.log_view(), pointers)),
    ensures
        all_readable(store.log_view(), pointers),
        all_chunks(chunks_of(store.log_view(), pointers)),
        contents(entries_of(post.records())) == store@,
{
    store.lemma_view();
    store.lemma_keys();
    let pre = store.log_view();
    let chunks = chunks_of(pre, pointers);
    let held = store@;
    let order = choose|order: Seq<Seq<char>>| is_listing(order, pointers, store.places());
    assert forall|i: int| 0 <= i < pointers.len() implies pre.chunk(
        #[trigger] pointers[i],
    ).is_some() && is_chunk(chunks[i]) && chunk_entry(chunks[i]) == put(order[i], held[order[i]])
        && held.contains_key(order[i]) by {
        assert(store.places().contains_key(order[i]));
        store.lemma_pointer_valid(order[i]);
        lemma_parse_entry_bounds(chunks[i], 0);
    }
    assert(all_chunks(chunks));
    assert forall|key: Seq<char>| #[trigger] held.contains_key(key) implies exists|i: int|
        0 <= i < order.len() && order[i] == key by {
        assert(store.places().contains_key(key));
    }
    lemma_contents_of_puts(chunk_entries(chunks), order, held);
}

/// Whether `entry` gives `key` a value or takes it out.
pub open spec fn speaks_of(entry: EntryView, key: Seq<char>) -> bool {
    match entry {
        Entry::Put(k, _) => k == key,
        Entry::Remove(k) => k == key,
    }
}

/// Whether the record at `at` is the last of `records` that speaks of `key`,
/// and gives it a value.
pub open spec fn is_last_put(records: Seq<Record>, key: Seq<char>, at: int) -> bool {
    &&& 0 <= at < records.len()
    &&& records[at].entry is Put
    &&& records[at].entry->Put_0 == key
    &&& forall|j: int| at < j < records.len() ==> !speaks_of((#[trigger] records[j]).entry, key)
}

/// What records come to holds the keys whose last record gives them a
/// value: the index holds the place of that record, and the store the
/// value that it gives. This holds of the records of a whole log and of
/// every run of its first records, so that reading a log up to any of its
/// entries gives the index that the store had when it had written that
/// entry.
pub proof fn law_replay_last_put(records: Seq<Record>, key: Seq<char>)
    ensures
        replay(records).contains_key(key) <==> exists|at: int| is_last_put(records, key, at),
        contents(entries_of(records)).contains_key(key) <==> exists|at: int|
            is_last_put(records, key, at),
        forall|at: int|
            is_last_put(records, key, at) ==> replay(records)[key] == (#[trigger] records[at]).ptr
                && contents(entries_of(records))[key] == records[at].entry->Put_1,
    decreases records.len(),
{
    if records.len() == 0 {
        assert(entries_of(records) =~= Seq::<EntryView>::empty());
    } else {
        let rest = records.drop_last();
        let last = records.last();
        let n = records.len() - 1;
        law_replay_last_put(rest, key);
        assert(records =~= rest.push(last));
        lemma_replay_push(rest, last);
        if speaks_of(last.entry, key) {
            if last.entry is Put {
                assert(is_last_put(records, key, n));
            }
            assert forall|at: int| is_last_put(records, key, at) implies at == n by {
                if at < n {
                    assert(speaks_of(records[n].entry, key));
                }
            }
        } else {
            assert forall|at: int| is_last_put(records, key, at) implies is_last_put(
                rest,
                key,
                at,
            ) by {
                assert(at < n);
                assert(rest[at] == records[at]);
                assert forall|j: int| at < j < rest.len() implies !speaks_of(
                    (#[trigger] rest[j]).entry,
                    key,
                ) by {
                    assert(rest[j] == records[j]);
                }
            }
            assert forall|at: int| is_last_put(rest, key, at) implies is_last_put(
                records,
                key,
                at,
            ) by {
                assert(rest[at] == records[at]);
                assert forall|j: int| at < j < records.len() implies !speaks_of(
                    (#[trigger] records[j]).entry,
                    key,
                ) by {
                    if j < n {
                        assert(rest[j] == records[j]);
                    }
                }
            }
            if exists|at: int| is_last_put(rest, key, at) {
                let at = choose|at: int| is_last_put(rest, key, at);
                assert(is_last_put(records, key, at));
            }
            if exists|at: int| is_last_put(records, key, at) {
                let at = choose|at: int| is_last_put(records, key, at);
                assert(is_last_put(rest, key, at));
            }
        }
    }
}

/// Reading a log from its start comes, at every entry, to the index that
/// the store had when it had written that entry: the index for one entry
/// more is the index for the entries before it, with that entry applied.
pub proof fn law_replay_prefix(records: Seq<Record>, count: int)
    requires
        0 <= count < records.len(),
    ensures
        replay(records.subrange(0, count + 1)) == apply_record(
            replay(records.subrange(0, count)),
            records[count],
        ),
        contents(entries_of(records.subrange(0, count + 1))) == apply_entry(
            contents(entries_of(records.subrange(0, count))),
            records[count].entry,
        ),
{
    let shorter = records.subrange(0, count);
    let longer = records.subrange(0, count + 1);
    assert(longer =~= shorter.push(records[count]));
    lemma_replay_push(shorter, records[count]);
}

} // verus!
