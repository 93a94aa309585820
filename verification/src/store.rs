//! The store: a log, and an index of the keys that the log comes to hold.

use crate::compaction::{
    all_chunks, all_readable, chunk_entries, chunk_entry, chunks_of, compacted, entries_of,
    is_chunk,
};
use crate::directory::{apply_ops, Directory, DiskOp, Files};
use crate::entry::{
    encodable, lemma_encodable_parses, lemma_parse_entry_bounds, put, removal, text_of, Entry,
    EntryView, KvsEntry,
};
use crate::error::{IoErrorKind, KvsError, Result, SerdeErrorKind};
use crate::index::Index;
use crate::json::lemma_skip_ws_bounds;
use crate::log::{open_error, open_owed, opened, saturated, Log};
use crate::meta::{meta_encodable, parse_meta};
use crate::names::{lemma_partition_file_name_is_not_meta, meta_file_name};
use crate::partition::{LogPartition, LogPointer, PARTITION_CAPACITY};
use crate::records::{
    file_records, lemma_added_totals, lemma_made_ready, lemma_with_chunk, meta_of, parse_one,
    parts_records, window_at, LogView, Record,
};
use crate::recovery::{crash_safe, log_of, opens, tells};
use crate::replay::{
    contents, lemma_contents_of_puts, lemma_records_placed, lemma_replay_points, lemma_replay_push,
    lists_places, placed, replay, Contents, Places,
};
use crate::stream::{scan, Scan};
use vstd::prelude::*;

verus! {

/// How many times more entries than keys the log may count before it is
/// compacted.
pub const COMPACTION_FACTOR: usize = 2;

/// Whether a log is to be compacted: it has more than one sealed partition,
/// and counts more than `COMPACTION_FACTOR` times as many entries as there
/// are keys.
pub open spec fn compaction_due(log: LogView, keys: nat) -> bool {
    log.hist.len() > 1 && saturated(log.entry_total()) > COMPACTION_FACTOR * keys
}

/// Whether a store can be opened from `files` and then holds `held`.
pub open spec fn holds(files: Files, held: Contents) -> bool {
    &&& opens(files)
    &&& log_of(files).clean()
    &&& contents(entries_of(log_of(files).records())) == held
}

/// Whether every state that the directory went through from `before` to
/// `after`, change by change, is one from which a store opens that holds
/// `was` or `is`: whenever the changes stop being carried over, the store
/// holds what it held before the operation or what it holds after it.
pub open spec fn store_safe(
    before: &Directory,
    after: &Directory,
    was: Contents,
    is: Contents,
) -> bool {
    forall|count: int|
        before.pending().len() <= count <= after.pending().len() ==> holds(
            #[trigger] after.files_after(count),
            was,
        ) || holds(after.files_after(count), is)
}

/// Changes that are safe for a log that reads to its end are safe for the
/// store of that log.
pub proof fn lemma_store_safe(
    before: &Directory,
    after: &Directory,
    was: LogView,
    is: LogView,
    held: Contents,
    held_then: Contents,
)
    requires
        crash_safe(before, after, was, is),
        was.clean(),
        is.clean(),
        contents(entries_of(was.records())) == held || contents(entries_of(was.records()))
            == held_then,
        contents(entries_of(is.records())) == held || contents(entries_of(is.records()))
            == held_then,
    ensures
        store_safe(before, after, held, held_then),
{
    assert forall|count: int|
        before.pending().len() <= count <= after.pending().len() implies holds(
        #[trigger] after.files_after(count),
        held,
    ) || holds(after.files_after(count), held_then) by {
        assert(tells(after.files_after(count), was) || tells(after.files_after(count), is));
    }
}

/// Changes that are safe for a store that holds the same before and after
/// are safe beside what it held before that.
pub proof fn lemma_store_safe_same(
    before: &Directory,
    after: &Directory,
    held: Contents,
    was: Contents,
    is: Contents,
)
    requires
        store_safe(before, after, held, held),
        held == was || held == is,
    ensures
        store_safe(before, after, was, is),
{
    assert forall|count: int|
        before.pending().len() <= count <= after.pending().len() implies holds(
        #[trigger] after.files_after(count),
        was,
    ) || holds(after.files_after(count), is) by {
        assert(holds(after.files_after(count), held));
    }
}

/// Changes that are made one after the other are safe for a store where
/// each of them is.
pub proof fn lemma_store_safe_join(
    first: &Directory,
    mid: &Directory,
    last: &Directory,
    held: Contents,
    held_then: Contents,
)
    requires
        last.extends(mid),
        store_safe(first, mid, held, held_then),
        store_safe(mid, last, held, held_then),
    ensures
        store_safe(first, last, held, held_then),
{
    assert forall|count: int| first.pending().len() <= count <= last.pending().len() implies holds(
        #[trigger] last.files_after(count),
        held,
    ) || holds(last.files_after(count), held_then) by {
        if count <= mid.pending().len() {
            last.lemma_files_after_kept(mid, count);
            assert(holds(mid.files_after(count), held) || holds(
                mid.files_after(count),
                held_then,
            ));
        }
    }
}

/// Whether `e` is the error with which opening a store in a directory that
/// holds `files` fails after its log was opened: the log that the metadata
/// file describes holds bytes that are not an entry.
pub open spec fn unreadable(files: Files, e: KvsError) -> bool {
    &&& files.contains_key(meta_file_name())
    &&& parse_meta(files[meta_file_name()]).is_some()
    &&& !log_of(files).clean()
    &&& e == KvsError::Serde(SerdeErrorKind::MalformedEntry)
}

/// Whether `post` is what compacting `pre` gives when the entries at
/// `places` are kept, each once, in some order.
pub open spec fn compacted_live(pre: LogView, places: Places, post: LogView) -> bool {
    exists|pointers: Seq<LogPointer>| #[trigger]
        lists_places(pointers, places) && compacted(pre, post, chunks_of(pre, pointers))
}

/// Whether `post` is what a log comes to when `text`, the text of an entry
/// that gives `key` a value, is written to `pre`, whose index is `places`,
/// and the log is then compacted.
pub open spec fn written_and_compacted(
    pre: LogView,
    places: Places,
    key: Seq<char>,
    text: Seq<u8>,
    post: LogView,
) -> bool {
    exists|file_id: u128| #[trigger]
        pre.admits(file_id) && compacted_live(
            pre.appended(text, file_id),
            places.insert(key, pre.place_for(text, file_id)),
            post,
        )
}

/// A store of keys and values.
pub struct KvStore {
    log: Log,
    index: Index,
}

impl View for KvStore {
    type V = Contents;

    closed spec fn view(&self) -> Contents {
        contents(entries_of(self.log@.records()))
    }
}

/// Reads the log from its start and collects the places of the keys it
/// comes to hold. Fails where the log holds bytes that are not an entry.
fn build_index(log: &Log) -> (r: Result<Index>)
    requires
        log.wf(),
    ensures
        match r {
            Ok(index) => index.wf() && log@.clean() && index@ == replay(log@.records()),
            Err(e) => !log@.clean() && e == KvsError::Serde(SerdeErrorKind::MalformedEntry),
        },
{
    let mut index = Index::new();
    let mut it = log.iter();
    loop
        invariant
            it.wf(),
            it.log() == log@,
            !it.failed(),
            index.wf(),
            index@ == replay(it.yielded()),
        decreases it.parts_left(), it.bytes_left(),
    {
        let ghost before = it.yielded();
        match it.next() {
            None => {
                return Ok(index);
            },
            Some(Err(e)) => {
                return Err(e);
            },
            Some(Ok((entry, ptr))) => {
                proof {
                    lemma_replay_push(before, Record { entry: entry@, ptr });
                }
                match entry {
                    Entry::Put(key, _) => {
                        index.insert(key, ptr);
                    },
                    Entry::Remove(key) => {
                        let _ = index.remove(&key);
                    },
                }
            },
        }
    }
}

impl KvStore {
    /// The log of the store.
    pub closed spec fn log_view(&self) -> LogView {
        self.log@
    }

    /// The index of the store: for each key, the place of its entry.
    pub closed spec fn places(&self) -> Places {
        self.index@
    }

    /// The image of the directory that the store lives in.
    pub closed spec fn spec_directory(&self) -> Directory {
        self.log.spec_directory()
    }

    /// What holds of a store even while its index is out of date: all but
    /// that the log reads to its end and that the index is what the records
    /// of the log come to.
    pub closed spec fn loadable(&self) -> bool {
        &&& self.log.wf()
        &&& self.index.wf()
    }

    /// What always holds of a store: its log reads to its end, and its index
    /// is what the records of the log come to.
    pub closed spec fn wf(&self) -> bool {
        &&& self.log.wf()
        &&& self.log@.clean()
        &&& self.index.wf()
        &&& self.index@ == replay(self.log@.records())
    }

    /// The keys and values of a store are what the entries of its log come
    /// to; its index holds what the records of the log come to; and the
    /// files of its log are those of its directory.
    pub proof fn lemma_view(&self)
        ensures
            self@ == contents(entries_of(self.log_view().records())),
            self.log_view().files == self.spec_directory()@,
            self.wf() ==> {
                &&& self.loadable()
                &&& self.spec_directory().wf()
                &&& self.log_view().wf()
                &&& self.log_view().described()
                &&& self.log_view().clean()
                &&& meta_encodable(meta_of(self.log_view()))
                &&& self.places() == replay(self.log_view().records())
            },
    {
        self.log.lemma_files();
        if self.wf() {
            self.log.lemma_wf();
        }
    }

    /// Writing the metadata file anew changes nothing in what the log of a
    /// store says, and leaves a metadata file that describes the log.
    pub proof fn lemma_closed(&self)
        requires
            self.wf(),
        ensures
            self.log_view().with_meta().described(),
            self.log_view().with_meta().records() == self.log_view().records(),
            self.log_view().with_meta().clean(),
    {
        self.log.lemma_closed();
    }

    /// What the index of a store says of a key that it holds: the place is in
    /// the log, and the bytes there are the text of the entry that puts the
    /// value of the key, and nothing else.
    pub proof fn lemma_pointer_valid(&self, key: Seq<char>)
        requires
            self.wf(),
            self.places().contains_key(key),
        ensures
            self@.contains_key(key),
            placed(
                self.log_view(),
                Record { entry: Entry::Put(key, self@[key]), ptr: self.places()[key] },
            ),
    {
        self.log.lemma_wf();
        let records = self.log@.records();
        lemma_replay_points(records);
        lemma_records_placed(self.log@);
        let i = choose|i: int|
            0 <= i < records.len() && #[trigger] records[i] == (Record {
                entry: Entry::Put(key, contents(entries_of(records))[key]),
                ptr: replay(records)[key],
            });
        assert(placed(self.log@, records[i]));
    }

    /// The keys of the index are the keys of the store.
    pub proof fn lemma_keys(&self)
        requires
            self.wf(),
        ensures
            self.places().dom() == self@.dom(),
    {
        lemma_replay_points(self.log@.records());
    }

    /// Opens the store that lives in `dir`, or starts a new one where `dir`
    /// holds no metadata file; `dirname` is the name of the directory. The
    /// log is opened, and read from its start to build the index. A new
    /// store holds nothing; a store that was there holds what the entries of
    /// its log come to.
    pub fn open(dirname: &str, dir: Directory) -> (r: Result<KvStore>)
        requires
            dir.wf(),
        ensures
            match r {
                Ok(store) => {
                    &&& store.wf()
                    &&& store.spec_directory().extends(&dir)
                    &&& opened(dirname@, dir@, store.log_view())
                    &&& store@ == if dir@.contains_key(meta_file_name()) {
                        contents(entries_of(log_of(dir@).records()))
                    } else {
                        Map::empty()
                    }
                },
                Err(e) => open_error(dirname@, dir@, e) || unreadable(dir@, e),
            },
            open_owed(dirname@, dir@) && (dir@.contains_key(meta_file_name()) ==> log_of(
                dir@,
            ).clean()) ==> r is Ok,
    {
        let log = match Log::open(dirname, dir) {
            Ok(log) => log,
            Err(e) => {
                return Err(e);
            },
        };
        proof {
            if dir@.contains_key(meta_file_name()) {
                assert(log@ == log_of(dir@));
            } else {
                lemma_partition_file_name_is_not_meta(log@.active.file_id);
                assert(log@.parts() =~= seq![log@.active]);
                assert(log@.parts().drop_last() =~= Seq::<LogPartition>::empty());
                assert(log@.files[log@.active.name()] == Seq::<u8>::empty());
                assert(scan(Seq::<u8>::empty(), 0) == Scan { items: Seq::empty(), clean: true });
                assert(log@.parts().last() == log@.active);
                assert(file_records(Seq::<u8>::empty(), log@.active.file_id) =~= Seq::<
                    Record,
                >::empty());
                assert(parts_records(log@.files, Seq::<LogPartition>::empty()) =~= Seq::<
                    Record,
                >::empty());
                assert(log@.records() =~= Seq::<Record>::empty());
                assert(entries_of(log@.records()) =~= Seq::<EntryView>::empty());
            }
        }
        match build_index(&log) {
            Ok(index) => Ok(KvStore { log, index }),
            Err(e) => Err(e),
        }
    }

    /// The number of keys that the store holds.
    pub fn len(&self) -> (n: usize)
        requires
            self.wf(),
        ensures
            n == self@.dom().len(),
            self@.dom().finite(),
    {
        proof {
            self.lemma_keys();
        }
        self.index.len()
    }

    /// The place of the entry that gave `key` its value.
    pub fn locate(&self, key: &String) -> (r: Option<LogPointer>)
        requires
            self.wf(),
        ensures
            match r {
                Some(ptr) => self@.contains_key(key@) && self.places()[key@] == ptr,
                None => !self@.contains_key(key@),
            },
    {
        proof {
            self.lemma_keys();
        }
        self.index.get(key)
    }

    /// The log of the store.
    pub fn log(&self) -> (log: &Log)
        ensures
            log@ == self.log_view(),
            self.wf() ==> log.wf(),
    {
        &self.log
    }

    /// The image of the directory that the store lives in.
    pub fn directory(&self) -> (dir: &Directory)
        ensures
            *dir == self.spec_directory(),
    {
        self.log.directory()
    }

    /// Hands out the changes that were made to the directory since this was
    /// last called, first to last. Made to the files as they were then, they
    /// give the files as they are now.
    pub fn take_journal(&mut self) -> (ops: Vec<DiskOp>)
        requires
            old(self).wf(),
        ensures
            final(self).wf(),
            final(self)@ == old(self)@,
            final(self).log_view() == old(self).log_view(),
            final(self).places() == old(self).places(),
            ops@ == old(self).spec_directory().pending(),
            apply_ops(old(self).spec_directory().synced(), ops@) == old(self).log_view().files,
            final(self).spec_directory().pending() == Seq::<DiskOp>::empty(),
            final(self).spec_directory().synced() == old(self).log_view().files,
    {
        self.log.take_journal()
    }

    /// Reads the log from its start and builds the index anew: the index
    /// then holds what the records of the log come to, applied first to
    /// last. Fails, and leaves the index as it was, where the log holds
    /// bytes that are not an entry.
    pub fn load_index(&mut self) -> (r: Result<()>)
        requires
            old(self).loadable(),
        ensures
            final(self).loadable(),
            final(self).log_view() == old(self).log_view(),
            final(self).spec_directory() == old(self).spec_directory(),
            match r {
                Ok(()) => {
                    &&& old(self).log_view().clean()
                    &&& final(self).wf()
                    &&& final(self).places() == replay(old(self).log_view().records())
                },
                Err(e) => {
                    &&& !old(self).log_view().clean()
                    &&& e == KvsError::Serde(SerdeErrorKind::MalformedEntry)
                    &&& final(self).places() == old(self).places()
                },
            },
    {
        match build_index(&self.log) {
            Ok(index) => {
                self.index = index;
                Ok(())
            },
            Err(e) => Err(e),
        }
    }

    /// The value that the store holds for `key`.
    pub fn get(&mut self, key: String) -> (r: Result<Option<String>>)
        requires
            old(self).wf(),
        ensures
            *final(self) == *old(self),
            match r {
                Ok(Some(value)) => old(self)@.contains_key(key@) && value@ == old(self)@[key@],
                Ok(None) => !old(self)@.contains_key(key@),
                Err(_) => false,
            },
    {
        proof {
            self.lemma_keys();
        }
        match self.index.get(&key) {
            None => Ok(None),
            Some(ptr) => {
                proof {
                    self.lemma_pointer_valid(key@);
                    let chunk = self.log@.chunk(ptr).unwrap();
                    assert(window_at(self.log@.file(ptr.file_id), ptr) == chunk);
                    lemma_parse_entry_bounds(chunk, 0);
                    lemma_skip_ws_bounds(chunk, chunk.len() as int);
                    assert(parse_one(chunk) == Some(
                        Entry::<Seq<char>, Seq<char>>::Put(key@, self@[key@]),
                    ));
                }
                match self.log.retrieve(&ptr) {
                    Ok(Entry::Put(_, value)) => Ok(Some(value)),
                    Ok(Entry::Remove(_)) => Err(KvsError::KeyNotFound),
                    Err(e) => Err(e),
                }
            },
        }
    }

    /// Compacts the log where that is due, and builds the index anew from
    /// the compacted log. It is due where the log has more than one sealed
    /// partition and counts more than `COMPACTION_FACTOR` times as many
    /// entries as the store holds keys; else the log and the index are left
    /// as they are.
    pub fn maybe_compact(&mut self) -> (r: Result<()>)
        requires
            old(self).wf(),
        ensures
            final(self).wf(),
            final(self)@ == old(self)@,
            final(self).spec_directory().extends(&old(self).spec_directory()),
            store_safe(
                &old(self).spec_directory(),
                &final(self).spec_directory(),
                old(self)@,
                final(self)@,
            ),
            match r {
                Ok(()) => if compaction_due(old(self).log_view(), old(self)@.dom().len()) {
                    &&& final(self).log_view().entry_total() == final(self)@.dom().len()
                    &&& compacted_live(
                        old(self).log_view(),
                        old(self).places(),
                        final(self).log_view(),
                    )
                } else {
                    final(self).log_view() == old(self).log_view() && final(self).places() == old(
                        self,
                    ).places()
                },
                Err(e) => e == KvsError::Io(IoErrorKind::AlreadyExists) && compaction_due(
                    old(self).log_view(),
                    old(self)@.dom().len(),
                ) && final(self).log_view() == old(self).log_view() && final(self).places() == old(
                    self,
                ).places(),
            },
    {
        proof {
            self.log.lemma_wf();
            self.log.lemma_extends_refl();
            self.lemma_keys();
        }
        let keys = self.index.len();
        let total = self.log.len();
        if !(self.log.hist().len() > 1 && total as u128 > COMPACTION_FACTOR as u128
            * keys as u128) {
            proof {
                self.log.lemma_unchanged_safe();
                lemma_store_safe(
                    &self.log.spec_directory(),
                    &self.log.spec_directory(),
                    self.log@,
                    self.log@,
                    self@,
                    self@,
                );
            }
            return Ok(());
        }
        let ptrs = self.index.pointers();
        let ghost pre = self.log@;
        let ghost held = self@;
        let ghost order = self.index.order();
        let ghost chunks = chunks_of(pre, ptrs@);
        proof {
            self.index.lemma_order();
            assert(lists_places(ptrs@, self.index@));
            assert forall|i: int| 0 <= i < ptrs@.len() implies pre.chunk(
                #[trigger] ptrs@[i],
            ).is_some() && is_chunk(chunks[i]) && chunk_entry(chunks[i]) == put(
                order[i],
                held[order[i]],
            ) by {
                self.lemma_pointer_valid(order[i]);
                lemma_parse_entry_bounds(chunks[i], 0);
            }
            assert(all_readable(pre, ptrs@));
            assert(all_chunks(chunks));
            assert forall|i: int| 0 <= i < order.len() implies held.contains_key(
                #[trigger] order[i],
            ) by {
                self.lemma_pointer_valid(order[i]);
            }
        }
        match self.log.compact(&ptrs) {
            Err(e) => {
                proof {
                    if e != KvsError::Io(IoErrorKind::AlreadyExists) {
                        let i = choose|i: int|
                            0 <= i < ptrs@.len() && pre.chunk(#[trigger] ptrs@[i]).is_none();
                        assert(pre.chunk(ptrs@[i]).is_some());
                    }
                    lemma_store_safe(
                        &old(self).log.spec_directory(),
                        &self.log.spec_directory(),
                        pre,
                        self.log@,
                        held,
                        held,
                    );
                }
                Err(e)
            },
            Ok(()) => {
                proof {
                    let entries = chunk_entries(chunks);
                    assert forall|key: Seq<char>| #[trigger] held.contains_key(key) implies exists|
                        i: int,
                    | 0 <= i < order.len() && order[i] == key by {
                        assert(old(self).index@.contains_key(key));
                    }
                    lemma_contents_of_puts(entries, order, held);
                    assert(entries_of(self.log@.records()) == entries);
                    assert(lists_places(ptrs@, old(self).index@) && compacted(
                        pre,
                        self.log@,
                        chunks_of(pre, ptrs@),
                    ));
                    assert(compacted_live(pre, old(self).index@, self.log@));
                    lemma_store_safe(
                        &old(self).log.spec_directory(),
                        &self.log.spec_directory(),
                        pre,
                        self.log@,
                        held,
                        held,
                    );
                }
                let ghost post = self.log@;
                match self.load_index() {
                    Ok(()) => {
                        proof {
                            self.lemma_keys();
                            assert(self.log@ == post);
                        }
                        Ok(())
                    },
                    Err(e) => Err(e),
                }
            },
        }
    }

    /// Gives `key` the value `value`. The entry is written to the log, the
    /// index is made to point to it, and the log is compacted where that is
    /// due.
    pub fn set(&mut self, key: String, value: String) -> (r: Result<()>)
        requires
            old(self).wf(),
        ensures
            final(self).wf(),
            final(self).spec_directory().extends(&old(self).spec_directory()),
            store_safe(
                &old(self).spec_directory(),
                &final(self).spec_directory(),
                old(self)@,
                final(self)@,
            ),
            match r {
                Ok(()) => {
                    let text = text_of(put(key@, value@));
                    let file_id = final(self).log_view().active.file_id;
                    let written = old(self).log_view().appended(text, file_id);
                    &&& encodable(put(key@, value@))
                    &&& final(self)@ == old(self)@.insert(key@, value@)
                    &&& if compaction_due(written, final(self)@.dom().len()) {
                        &&& final(self).log_view().entry_total() == final(self)@.dom().len()
                        &&& written_and_compacted(
                            old(self).log_view(),
                            old(self).places(),
                            key@,
                            text,
                            final(self).log_view(),
                        )
                    } else {
                        &&& final(self).log_view() == written
                        &&& final(self).places() == old(self).places().insert(
                            key@,
                            old(self).log_view().place_for(text, file_id),
                        )
                    }
                },
                Err(e) => if e == KvsError::Serde(SerdeErrorKind::Unencodable) {
                    !encodable(put(key@, value@)) && final(self)@ == old(self)@
                } else {
                    &&& e == KvsError::Io(IoErrorKind::AlreadyExists)
                    &&& if encodable(put(key@, value@)) {
                        final(self)@ == old(self)@.insert(key@, value@) || (final(self)@ == old(
                            self,
                        )@ && old(self).log_view().active.entry_count == PARTITION_CAPACITY)
                    } else {
                        final(self)@ == old(self)@ && old(self).log_view().active.entry_count
                            == PARTITION_CAPACITY
                    }
                },
            },
            encodable(put(key@, value@)) && old(self).log_view().active.entry_count
                < PARTITION_CAPACITY && !compaction_due(
                old(self).log_view().with_chunk(text_of(put(key@, value@))),
                old(self)@.insert(key@, value@).dom().len(),
            ) ==> r is Ok,
    {
        proof {
            self.log.lemma_wf();
        }
        let ghost pre = self.log@;
        let ghost pre_dir = self.log.spec_directory();
        let entry = Entry::Put(key.clone(), value);
        let ghost held = self@;
        let ptr = match self.log.append(&entry) {
            Ok(ptr) => ptr,
            Err(e) => {
                proof {
                    if e != KvsError::Io(IoErrorKind::AlreadyExists) {
                        self.log.lemma_wf();
                        lemma_made_ready(pre, self.log@.active.file_id);
                    }
                    lemma_store_safe(
                        &pre_dir,
                        &self.log.spec_directory(),
                        pre,
                        self.log@,
                        held,
                        held,
                    );
                }
                return Err(e);
            },
        };
        let ghost mid_dir = self.log.spec_directory();
        let ghost appended = self.log@;
        proof {
            let ready = pre.made_ready(appended.active.file_id);
            lemma_made_ready(pre, appended.active.file_id);
            lemma_encodable_parses(entry@);
            lemma_with_chunk(ready, text_of(entry@), entry@);
            lemma_replay_push(pre.records(), Record { entry: entry@, ptr });
        }
        self.index.insert(key, ptr);
        let ghost pointed = self.index@;
        let ghost put_held = self@;
        proof {
            lemma_store_safe(&pre_dir, &mid_dir, pre, appended, held, put_held);
        }
        let r = self.maybe_compact();
        proof {
            self.log.lemma_extends_trans(&mid_dir, &pre_dir);
            lemma_store_safe_same(&mid_dir, &self.log.spec_directory(), put_held, held, put_held);
            lemma_store_safe_join(
                &pre_dir,
                &mid_dir,
                &self.log.spec_directory(),
                held,
                put_held,
            );
            lemma_added_totals(pre, appended.active.file_id, text_of(entry@));
            lemma_added_totals(pre, self.log@.active.file_id, text_of(entry@));
            if r is Ok && compaction_due(appended, self@.dom().len()) {
                assert(pre.admits(appended.active.file_id) && compacted_live(
                    pre.appended(text_of(entry@), appended.active.file_id),
                    old(self).index@.insert(
                        key@,
                        pre.place_for(text_of(entry@), appended.active.file_id),
                    ),
                    self.log@,
                ));
            }
        }
        r
    }

    /// Takes `key` out of the store. Fails where the store does not hold the
    /// key. Else an entry that says so is written to the log, and the key is
    /// taken out of the index.
    pub fn remove(&mut self, key: String) -> (r: Result<()>)
        requires
            old(self).wf(),
        ensures
            final(self).wf(),
            final(self).spec_directory().extends(&old(self).spec_directory()),
            store_safe(
                &old(self).spec_directory(),
                &final(self).spec_directory(),
                old(self)@,
                final(self)@,
            ),
            !old(self)@.contains_key(key@) ==> r == Err::<(), KvsError>(KvsError::KeyNotFound)
                && *final(self) == *old(self),
            old(self)@.contains_key(key@) ==> match r {
                Ok(()) => {
                    let text = text_of(removal(key@));
                    let file_id = final(self).log_view().active.file_id;
                    &&& encodable(removal(key@))
                    &&& final(self)@ == old(self)@.remove(key@)
                    &&& final(self).places() == old(self).places().remove(key@)
                    &&& final(self).log_view() == old(self).log_view().appended(text, file_id)
                },
                Err(e) => final(self)@ == old(self)@ && if e == KvsError::Serde(
                    SerdeErrorKind::Unencodable,
                ) {
                    !encodable(removal(key@))
                } else {
                    e == KvsError::Io(IoErrorKind::AlreadyExists) && old(
                        self,
                    ).log_view().active.entry_count == PARTITION_CAPACITY
                },
            },
            old(self)@.contains_key(key@) && encodable(removal(key@)) && old(
                self,
            ).log_view().active.entry_count < PARTITION_CAPACITY ==> r is Ok,
    {
        proof {
            self.log.lemma_wf();
            self.log.lemma_extends_refl();
            self.lemma_keys();
        }
        let ghost held = self@;
        let ghost pre = self.log@;
        let ghost pre_dir = self.log.spec_directory();
        if !self.index.contains_key(&key) {
            proof {
                self.log.lemma_unchanged_safe();
                lemma_store_safe(&pre_dir, &pre_dir, pre, pre, held, held);
            }
            return Err(KvsError::KeyNotFound);
        }
        let entry: KvsEntry = Entry::Remove(key.clone());
        let ptr = match self.log.append(&entry) {
            Ok(ptr) => ptr,
            Err(e) => {
                proof {
                    if e != KvsError::Io(IoErrorKind::AlreadyExists) {
                        self.log.lemma_wf();
                        lemma_made_ready(pre, self.log@.active.file_id);
                    }
                    lemma_store_safe(
                        &pre_dir,
                        &self.log.spec_directory(),
                        pre,
                        self.log@,
                        held,
                        held,
                    );
                }
                return Err(e);
            },
        };
        proof {
            let ready = pre.made_ready(self.log@.active.file_id);
            lemma_made_ready(pre, self.log@.active.file_id);
            lemma_encodable_parses(entry@);
            lemma_with_chunk(ready, text_of(entry@), entry@);
            lemma_replay_push(pre.records(), Record { entry: entry@, ptr });
        }
        let _ = self.index.remove(&key);
        proof {
            lemma_store_safe(&pre_dir, &self.log.spec_directory(), pre, self.log@, held, self@);
        }
        Ok(())
    }

    /// Ends the use of the store: the metadata file is written, and the
    /// directory is handed back.
    pub fn close(self) -> (dir: Directory)
        requires
            self.wf(),
        ensures
            dir.extends(&self.spec_directory()),
            dir@ == self.log_view().with_meta().files,
            store_safe(&self.spec_directory(), &dir, self@, self@),
    {
        let ghost was = self.log@;
        let ghost was_dir = self.log.spec_directory();
        let dir = self.log.close();
        proof {
            lemma_store_safe(&was_dir, &dir, was, was, self@, self@);
        }
        dir
    }
}

} // verus!
