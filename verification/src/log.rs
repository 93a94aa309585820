//! The log: an active partition that entries are added to, and the sealed
//! partitions that came before it.

use crate::compaction::{
    all_chunks, all_readable, chunk_entries, chunk_entry, chunks_of, compacted, entries_of, filled,
    fresh_start, grown_from, ids_of, is_chunk, lemma_grown_step, lemma_grown_undone,
    lemma_part_names_push, lemma_refill_step, lemma_said_step, part_names, read_error, refill,
};
use crate::directory::{apply_ops, Directory, DiskOp, Files};
use crate::entry::{decode_entry, encodable, encode_entry, text_of, KvsEntry, ParsedEntry};
use crate::error::{IoErrorKind, KvsError, Result, SerdeErrorKind};
use crate::json::{quotable, quote_checked, skip_white_space};
use crate::meta::{
    decode_meta, encode_meta, lemma_meta_parses, meta_encodable, meta_text, parse_meta, LogMeta,
    LogMetaView,
};
use crate::names::{lemma_partition_file_name_is_not_meta, meta_file_name};
use crate::partition::{
    has_partition_file, LogPartition, LogPartitionIter, LogPointer, PARTITION_CAPACITY,
};
use crate::records::{
    count_total, file_records, lemma_described_still, lemma_made_ready, lemma_parts_frame,
    lemma_records_prefix,
    lemma_rotated, lemma_with_chunk_wf, lemma_with_meta, meta_of, parse_one, parts_clean,
    parts_records, same_ids, window_at, LogView, Record,
};
use crate::recovery::{
    all_distinct, crash_safe, distinct_ids, files_present, keeps, lemma_keeps_join,
    lemma_keeps_on, lemma_keeps_start, lemma_safe_end, lemma_safe_join, lemma_safe_kept,
    lemma_safe_same, lemma_safe_step, lemma_safe_untouched, lemma_tells_beside,
    lemma_tells_itself, lemma_touches_join, lemma_touches_one, opens, same_at, says_same,
    touches_only,
};
use crate::stream::scan;
use std::collections::HashMap;
use vstd::prelude::*;
use vstd::slice::slice_subrange;
use vstd::string::StringExecFns;

verus! {

broadcast use vstd::std_specs::hash::group_hash_axioms;

/// A log in a directory.
pub struct Log {
    dirname: String,
    active: LogPartition,
    hist: Vec<LogPartition>,
    hist_map: HashMap<u128, usize>,
    dir: Directory,
}

impl View for Log {
    type V = LogView;

    closed spec fn view(&self) -> LogView {
        LogView {
            dirname: self.dirname@,
            active: self.active,
            hist: self.hist@,
            files: self.dir@,
        }
    }
}

/// Whether `map` leads from the identifier of each sealed partition to the
/// position of that partition in `hist`, and holds nothing else.
pub open spec fn is_position_map(map: Map<u128, usize>, hist: Seq<LogPartition>) -> bool {
    &&& forall|i: int|
        0 <= i < hist.len() ==> map.contains_key((#[trigger] hist[i]).file_id)
            && map[hist[i].file_id] == i
    &&& forall|id: u128| #[trigger]
        map.contains_key(id) ==> map[id] < hist.len() && hist[map[id] as int].file_id == id
}

/// Whether `log` is what opening a log in a directory that holds `files`
/// gives, `dirname` being the name given for the directory: the log that
/// the metadata file describes, where there is one, and else a new log of
/// one empty partition, with a metadata file that describes it.
pub open spec fn opened(dirname: Seq<char>, files: Files, log: LogView) -> bool {
    if files.contains_key(meta_file_name()) {
        &&& parse_meta(files[meta_file_name()]) == Some(meta_of(log))
        &&& meta_encodable(meta_of(log))
        &&& log.files == files
    } else {
        &&& log.dirname == dirname
        &&& log.hist.len() == 0
        &&& log.active.entry_count == 0
        &&& !files.contains_key(log.active.name())
        &&& meta_encodable(meta_of(log))
        &&& log.files == files.insert(log.active.name(), Seq::empty()).insert(
            meta_file_name(),
            meta_text(meta_of(log)).unwrap(),
        )
    }
}

/// Whether `e` is the error with which opening a log in a directory that
/// holds `files` fails, `dirname` being the name given for the directory.
/// Where there is a metadata file: it does not read, or two of the
/// partitions it lists share an identifier, or the file of one of them is
/// missing, or the name of the directory that it gives could not be written
/// again. Where there is none: the name given cannot be written and read
/// back, or no new partition could be started, which can only be where a
/// file of the directory has the name of a partition file.
pub open spec fn open_error(dirname: Seq<char>, files: Files, e: KvsError) -> bool {
    if files.contains_key(meta_file_name()) {
        match parse_meta(files[meta_file_name()]) {
            None => e == KvsError::Serde(SerdeErrorKind::MalformedMetadata),
            Some(meta) => if !distinct_ids(meta) {
                e == KvsError::Serde(SerdeErrorKind::MalformedMetadata)
            } else if !files_present(meta, files) {
                e == KvsError::Io(IoErrorKind::NotFound)
            } else {
                !meta_encodable(meta) && e == KvsError::Serde(SerdeErrorKind::Unencodable)
            },
        }
    } else if !quotable(dirname) {
        e == KvsError::Serde(SerdeErrorKind::Unencodable)
    } else {
        has_partition_file(files) && e == KvsError::Io(IoErrorKind::AlreadyExists)
    }
}

/// Whether opening a log in a directory that holds `files` is certain to
/// succeed, `dirname` being the name given for the directory. Where there
/// is a metadata file: the log that it describes can be opened. Where there
/// is none: the name given can be written and read back, and no file has
/// the name of a partition file, so that whatever name is drawn for the
/// first partition is free.
pub open spec fn open_owed(dirname: Seq<char>, files: Files) -> bool {
    if files.contains_key(meta_file_name()) {
        opens(files)
    } else {
        quotable(dirname) && !has_partition_file(files)
    }
}

/// `n`, or the largest machine number where `n` is larger.
pub open spec fn saturated(n: nat) -> usize {
    if n <= usize::MAX {
        n as usize
    } else {
        usize::MAX
    }
}

/// The name of the metadata file.
fn meta_name() -> (name: String)
    ensures
        name@ == meta_file_name(),
{
    proof {
        reveal_strlit("logparts");
    }
    assert("logparts"@ =~= meta_file_name());
    String::from_str("logparts")
}

/// A copy of `parts`.
fn copy_partitions(parts: &Vec<LogPartition>) -> (copy: Vec<LogPartition>)
    ensures
        copy@ == parts@,
{
    let mut copy: Vec<LogPartition> = Vec::new();
    let mut i: usize = 0;
    while i < parts.len()
        invariant
            i <= parts@.len(),
            copy@ == parts@.subrange(0, i as int),
        decreases parts@.len() - i,
    {
        copy.push(parts[i]);
        assert(copy@ =~= parts@.subrange(0, i + 1));
        i = i + 1;
    }
    assert(parts@.subrange(0, i as int) =~= parts@);
    copy
}

/// The map from the identifier of each partition of `hist` to its position,
/// or `None` where two of the partitions, or one of them and the active
/// partition `active`, share an identifier.
fn build_position_map(hist: &Vec<LogPartition>, active: LogPartition) -> (r: Option<
    HashMap<u128, usize>,
>)
    ensures
        match r {
            Some(map) => is_position_map(map@, hist@) && !map@.contains_key(active.file_id)
                && distinct_ids(LogMetaView { dirname: Seq::empty(), active, hist: hist@ }),
            None => !distinct_ids(LogMetaView { dirname: Seq::empty(), active, hist: hist@ }),
        },
{
    let ghost parts = hist@.push(active);
    let mut map: HashMap<u128, usize> = HashMap::new();
    let mut i: usize = 0;
    while i < hist.len()
        invariant
            i <= hist@.len(),
            parts == hist@.push(active),
            is_position_map(map@, hist@.subrange(0, i as int)),
            forall|k: int| 0 <= k < i ==> (#[trigger] hist@[k]).file_id != active.file_id,
        decreases hist@.len() - i,
    {
        let id = hist[i].file_id;
        let ghost done = hist@.subrange(0, i as int);
        if id == active.file_id {
            proof {
                assert(parts[i as int].file_id == parts[hist@.len() as int].file_id);
                assert(!all_distinct(parts));
            }
            return None;
        }
        if map.contains_key(&id) {
            proof {
                let k = map@[id] as int;
                assert(done[k] == hist@[k]);
                assert(parts[k].file_id == parts[i as int].file_id);
                assert(!all_distinct(parts));
            }
            return None;
        }
        let ghost before = map@;
        map.insert(id, i);
        proof {
            let next = hist@.subrange(0, i + 1);
            assert forall|k: int| 0 <= k < next.len() implies map@.contains_key(
                (#[trigger] next[k]).file_id,
            ) && map@[next[k].file_id] == k by {
                if k < i {
                    assert(next[k] == done[k]);
                }
            }
            assert forall|x: u128| #[trigger] map@.contains_key(x) implies map@[x] < next.len()
                && next[map@[x] as int].file_id == x by {
                if x != id {
                    assert(before.contains_key(x));
                    assert(next[before[x] as int] == done[before[x] as int]);
                }
            }
        }
        i = i + 1;
    }
    proof {
        assert(hist@.subrange(0, i as int) =~= hist@);
        assert forall|a: int, b: int| 0 <= a < b < parts.len() implies (#[trigger] parts[a]).file_id
            != (#[trigger] parts[b]).file_id by {
            if b < hist@.len() {
                assert(parts[a] == hist@[a]);
                assert(parts[b] == hist@[b]);
                assert(map@[hist@[a].file_id] == a);
                assert(map@[hist@[b].file_id] == b);
            } else {
                assert(parts[a] == hist@[a]);
            }
        }
        if map@.contains_key(active.file_id) {
            let k = map@[active.file_id] as int;
            assert(hist@[k].file_id == active.file_id);
        }
    }
    Some(map)
}

/// Whether the file of each partition of `hist`, and that of `active`, is in
/// `dir`.
fn all_present(dir: &Directory, hist: &Vec<LogPartition>, active: LogPartition) -> (b: bool)
    requires
        dir.wf(),
    ensures
        b == files_present(LogMetaView { dirname: Seq::empty(), active, hist: hist@ }, dir@),
{
    let ghost parts = hist@.push(active);
    if !dir.contains(&active.file_name()) {
        proof {
            assert(parts[hist@.len() as int] == active);
        }
        return false;
    }
    let mut i: usize = 0;
    while i < hist.len()
        invariant
            i <= hist@.len(),
            dir.wf(),
            parts == hist@.push(active),
            forall|k: int| 0 <= k < i ==> dir@.contains_key((#[trigger] hist@[k]).name()),
        decreases hist@.len() - i,
    {
        if !dir.contains(&hist[i].file_name()) {
            proof {
                assert(parts[i as int] == hist@[i as int]);
            }
            return false;
        }
        i = i + 1;
    }
    proof {
        assert forall|k: int| 0 <= k < parts.len() implies dir@.contains_key(
            (#[trigger] parts[k]).name(),
        ) by {
            if k < hist@.len() {
                assert(parts[k] == hist@[k]);
            }
        }
    }
    true
}

/// Whether `hist` or `active` holds a partition with the identifier
/// `file_id`; `map` leads from the identifiers of `hist` to their positions.
fn known_id(
    map: &HashMap<u128, usize>,
    hist: &Vec<LogPartition>,
    active: LogPartition,
    file_id: u128,
) -> (b: bool)
    requires
        is_position_map(map@, hist@),
    ensures
        b == exists|i: int|
            0 <= i < hist@.push(active).len() && (#[trigger] hist@.push(active)[i]).file_id
                == file_id,
{
    let b = file_id == active.file_id || map.contains_key(&file_id);
    proof {
        let parts = hist@.push(active);
        if b {
            if file_id == active.file_id {
                assert(parts[parts.len() - 1].file_id == file_id);
            } else {
                let i = map@[file_id] as int;
                assert(parts[i].file_id == file_id);
            }
        } else {
            if exists|i: int| 0 <= i < parts.len() && (#[trigger] parts[i]).file_id == file_id {
                let i = choose|i: int| 0 <= i < parts.len() && (#[trigger] parts[i]).file_id
                    == file_id;
                if i < hist@.len() {
                    assert(parts[i] == hist@[i]);
                }
            }
        }
    }
    b
}

/// Deletes the files of the partitions `hist` and `active`, as far as they
/// are there.
fn remove_files(dir: &mut Directory, hist: &Vec<LogPartition>, active: LogPartition)
    requires
        old(dir).wf(),
    ensures
        final(dir).extends(old(dir)),
        final(dir)@ == old(dir)@.remove_keys(part_names(hist@.push(active))),
        touches_only(old(dir), final(dir), part_names(hist@.push(active))),
{
    proof {
        dir.lemma_extends_refl();
        assert(part_names(hist@.subrange(0, 0)) =~= Set::<Seq<char>>::empty());
        assert(dir@.remove_keys(Set::<Seq<char>>::empty()) =~= dir@);
        Log::lemma_untouched(dir, part_names(hist@.subrange(0, 0)));
    }
    let mut i: usize = 0;
    while i < hist.len()
        invariant
            i <= hist@.len(),
            old(dir).wf(),
            dir.extends(old(dir)),
            dir@ == old(dir)@.remove_keys(part_names(hist@.subrange(0, i as int))),
            touches_only(old(dir), dir, part_names(hist@.subrange(0, i as int))),
        decreases hist@.len() - i,
    {
        let ghost before = *dir;
        let name = hist[i].file_name();
        let _ = dir.remove(&name);
        proof {
            dir.lemma_extends_trans(&before, old(dir));
            let done = hist@.subrange(0, i as int);
            assert(hist@.subrange(0, i + 1) =~= done.push(hist@[i as int]));
            lemma_part_names_push(done, hist@[i as int]);
            assert(dir@ =~= old(dir)@.remove_keys(part_names(hist@.subrange(0, i + 1))));
            lemma_remove_step(old(dir), &before, dir, part_names(done), name@);
        }
        i = i + 1;
    }
    let ghost before = *dir;
    let name = active.file_name();
    let _ = dir.remove(&name);
    proof {
        dir.lemma_extends_trans(&before, old(dir));
        assert(hist@.subrange(0, i as int) =~= hist@);
        lemma_part_names_push(hist@, active);
        assert(dir@ =~= old(dir)@.remove_keys(part_names(hist@.push(active))));
        lemma_remove_step(old(dir), &before, dir, part_names(hist@), name@);
    }
}

/// Deleting one more file touches one more name.
proof fn lemma_remove_step(
    first: &Directory,
    before: &Directory,
    after: &Directory,
    names: Set<Seq<char>>,
    name: Seq<char>,
)
    requires
        before.wf(),
        before.extends(first),
        after.extends(before),
        after.pending().len() <= before.pending().len() + 1,
        touches_only(first, before, names),
        after@ == before@.remove(name) || after@ == before@,
    ensures
        touches_only(first, after, names.insert(name)),
{
    lemma_touches_one(before, after, name);
    lemma_touches_join(first, before, after, names, set![name]);
    assert(names.union(set![name]) =~= names.insert(name));
}

impl Log {
    /// The image of the directory that the log lives in.
    pub closed spec fn spec_directory(&self) -> Directory {
        self.dir
    }

    /// The map that the log keeps beside its sealed partitions: from the
    /// identifier of each to its position among them.
    pub closed spec fn positions(&self) -> Map<u128, usize> {
        self.hist_map@
    }

    /// What holds of a log even while it is filled anew: all but that the
    /// metadata file describes it.
    closed spec fn sound(&self) -> bool {
        &&& self.dir.wf()
        &&& self@.wf()
        &&& is_position_map(self.positions(), self.hist@)
        &&& quotable(self.dirname@)
    }

    /// What always holds of a log.
    pub closed spec fn wf(&self) -> bool {
        &&& self.sound()
        &&& self@.described()
    }

    /// A log, taken as plain values, is a log; its directory is an image;
    /// and its map of positions leads from the identifier of each sealed
    /// partition to the position of that partition, and holds nothing else.
    pub proof fn lemma_wf(&self)
        requires
            self.wf(),
        ensures
            self@.wf(),
            self@.described(),
            self.spec_directory().wf(),
            meta_encodable(meta_of(self@)),
            is_position_map(self.positions(), self@.hist),
    {
    }

    /// Writing the metadata file anew changes nothing in what a log says,
    /// and leaves a metadata file that describes the log.
    pub proof fn lemma_closed(&self)
        requires
            self.wf(),
        ensures
            self@.with_meta().described(),
            self@.with_meta().records() == self@.records(),
            self@.with_meta().clean() == self@.clean(),
    {
        lemma_meta_parses(meta_of(self@));
        let closed = self@.with_meta();
        assert(closed.parts() == self@.parts());
        assert forall|i: int| 0 <= i < self@.parts().len() implies self@.files[(
        #[trigger] self@.parts()[i]).name()] == closed.files[self@.parts()[i].name()] by {
            lemma_partition_file_name_is_not_meta(self@.parts()[i].file_id);
        }
        lemma_parts_frame(self@.files, closed.files, self@.parts());
    }

    /// While nothing is changed, the log opens from its directory as it is.
    pub proof fn lemma_unchanged_safe(&self)
        requires
            self.wf(),
        ensures
            crash_safe(&self.spec_directory(), &self.spec_directory(), self@, self@),
    {
        self.dir.lemma_extends_refl();
        Self::lemma_step_safe(self, self);
    }

    /// The directory of a log extends itself.
    pub proof fn lemma_extends_refl(&self)
        requires
            self.wf(),
        ensures
            self.spec_directory().extends(&self.spec_directory()),
    {
        self.dir.lemma_extends_refl();
    }

    /// Extending is transitive.
    pub proof fn lemma_extends_trans(&self, mid: &Directory, before: &Directory)
        requires
            self.spec_directory().extends(mid),
            mid.extends(before),
        ensures
            self.spec_directory().extends(before),
    {
        self.dir.lemma_extends_trans(mid, before);
    }

    /// The files of a log are those of its directory.
    pub proof fn lemma_files(&self)
        ensures
            self@.files == self.spec_directory()@,
    {
    }

    /// Every file of an image is short enough for its positions to be
    /// machine numbers.
    proof fn lemma_file_sizes(dir: &Directory)
        ensures
            forall|name: Seq<char>| #[trigger]
                dir@.contains_key(name) ==> dir@[name].len() <= usize::MAX,
    {
        assert forall|name: Seq<char>| #[trigger] dir@.contains_key(name) implies dir@[name].len()
            <= usize::MAX by {
            dir.lemma_file_len(name);
        }
    }

    /// Opens the log that lives in `dir`. Where `dir` holds a metadata file,
    /// the log is the one that the file describes: the description must
    /// read, its partitions must have identifiers of their own, and their
    /// files must be there. Where `dir` holds none, a new log is started in
    /// it, with one empty partition and a metadata file that says so;
    /// `dirname` is written down as the name of its directory.
    pub fn open(dirname: &str, dir: Directory) -> (r: Result<Log>)
        requires
            dir.wf(),
        ensures
            match r {
                Ok(log) => log.wf() && log.spec_directory().extends(&dir) && opened(
                    dirname@,
                    dir@,
                    log@,
                ),
                Err(e) => open_error(dirname@, dir@, e),
            },
            open_owed(dirname@, dir@) ==> r is Ok,
    {
        let mut dir = dir;
        let ghost given = dir;
        proof {
            dir.lemma_extends_refl();
        }
        let meta_key = meta_name();
        let found = match dir.read(&meta_key) {
            None => None,
            Some(bytes) => Some(decode_meta(bytes.as_slice())),
        };
        match found {
            Some(Err(e)) => Err(e),
            Some(Ok(meta)) => {
                let ghost described = meta@;
                let LogMeta { dirname: name, active, hist } = meta;
                let hist_map = match build_position_map(&hist, active) {
                    None => {
                        return Err(KvsError::Serde(SerdeErrorKind::MalformedMetadata));
                    },
                    Some(map) => map,
                };
                if !all_present(&dir, &hist, active) {
                    return Err(KvsError::Io(IoErrorKind::NotFound));
                }
                if quote_checked(&name).is_none() {
                    return Err(KvsError::Serde(SerdeErrorKind::Unencodable));
                }
                let log = Log { dirname: name, active, hist, hist_map, dir };
                proof {
                    Self::lemma_file_sizes(&log.dir);
                    assert(meta_of(log@) == described);
                }
                Ok(log)
            },
            None => {
                let name = String::from_str(dirname);
                if quote_checked(&name).is_none() {
                    return Err(KvsError::Serde(SerdeErrorKind::Unencodable));
                }
                let active = match LogPartition::new(&mut dir) {
                    Ok(active) => active,
                    Err(e) => {
                        return Err(e);
                    },
                };
                let ghost created = dir;
                let mut log = Log {
                    dirname: name,
                    active,
                    hist: Vec::new(),
                    hist_map: HashMap::new(),
                    dir,
                };
                proof {
                    Self::lemma_file_sizes(&log.dir);
                    assert(log@.parts() =~= seq![active]);
                }
                log.write_meta();
                proof {
                    log.dir.lemma_extends_trans(&created, &given);
                }
                Ok(log)
            },
        }
    }

    /// The image of the directory that the log lives in.
    pub fn directory(&self) -> (dir: &Directory)
        ensures
            *dir == self.spec_directory(),
    {
        &self.dir
    }

    /// The name of the directory that the log was first opened in.
    pub fn dirname(&self) -> (name: &String)
        ensures
            name@ == self@.dirname,
    {
        &self.dirname
    }

    /// The active partition.
    pub fn active(&self) -> (p: LogPartition)
        ensures
            p == self@.active,
    {
        self.active
    }

    /// The sealed partitions, oldest first.
    pub fn hist(&self) -> (parts: &Vec<LogPartition>)
        ensures
            parts@ == self@.hist,
    {
        &self.hist
    }

    /// Hands out the changes that were made to the directory since this was
    /// last called, first to last. Made to the files as they were then, they
    /// give the files as they are now.
    pub fn take_journal(&mut self) -> (ops: Vec<DiskOp>)
        requires
            old(self).wf(),
        ensures
            final(self).wf(),
            final(self)@ == old(self)@,
            ops@ == old(self).spec_directory().pending(),
            apply_ops(old(self).spec_directory().synced(), ops@) == old(self)@.files,
            final(self).spec_directory().pending() == Seq::<DiskOp>::empty(),
            final(self).spec_directory().synced() == old(self)@.files,
    {
        self.dir.take_journal()
    }

    /// The position, among the sealed partitions, of the one with the
    /// identifier `file_id`.
    pub fn position(&self, file_id: u128) -> (r: Option<usize>)
        requires
            self.wf(),
        ensures
            match r {
                Some(i) => self.positions().contains_key(file_id) && self.positions()[file_id]
                    == i && i < self@.hist.len() && self@.hist[i as int].file_id == file_id,
                None => !self.positions().contains_key(file_id) && forall|i: int|
                    0 <= i < self@.hist.len() ==> (#[trigger] self@.hist[i]).file_id != file_id,
            },
    {
        match self.hist_map.get(&file_id) {
            Some(i) => Some(*i),
            None => None,
        }
    }

    /// Whether one of the partitions of the log has the identifier
    /// `file_id`.
    pub fn knows(&self, file_id: u128) -> (b: bool)
        requires
            self.wf(),
        ensures
            b == self@.knows(file_id),
    {
        proof {
            assert(self@.parts() == self.hist@.push(self.active));
        }
        known_id(&self.hist_map, &self.hist, self.active, file_id)
    }

    /// The number of entries that the partitions count, all together; the
    /// largest machine number where that is larger.
    pub fn len(&self) -> (n: usize)
        ensures
            n == saturated(self@.entry_total()),
    {
        let mut sum: usize = 0;
        let mut i: usize = 0;
        while i < self.hist.len()
            invariant
                i <= self.hist@.len(),
                sum == saturated(count_total(self.hist@.subrange(0, i as int))),
            decreases self.hist@.len() - i,
        {
            let count = self.hist[i].entry_count as usize;
            proof {
                let next = self.hist@.subrange(0, i + 1);
                assert(next.drop_last() =~= self.hist@.subrange(0, i as int));
                assert(next.last() == self.hist@[i as int]);
            }
            if sum > usize::MAX - count {
                sum = usize::MAX;
            } else {
                sum = sum + count;
            }
            i = i + 1;
        }
        proof {
            assert(self.hist@.subrange(0, i as int) =~= self.hist@);
            assert(self@.parts().drop_last() =~= self.hist@);
        }
        let count = self.active.entry_count as usize;
        if sum > usize::MAX - count {
            usize::MAX
        } else {
            sum + count
        }
    }

    /// Seals the active partition and starts a new, empty one. The metadata
    /// file is left as it is.
    fn rotate(&mut self) -> (r: Result<()>)
        requires
            old(self).sound(),
        ensures
            final(self).sound(),
            final(self).dir.extends(&old(self).dir),
            match r {
                Ok(()) => {
                    &&& !old(self)@.files.contains_key(final(self)@.active.name())
                    &&& final(self)@ == old(self)@.rotated(final(self)@.active.file_id)
                    &&& final(self).dir.pending().len() == old(self).dir.pending().len() + 1
                    &&& touches_only(
                        &old(self).dir,
                        &final(self).dir,
                        set![final(self)@.active.name()],
                    )
                },
                Err(e) => {
                    &&& e == KvsError::Io(IoErrorKind::AlreadyExists)
                    &&& final(self)@ == old(self)@
                    &&& final(self).dir.pending() == old(self).dir.pending()
                },
            },
    {
        let active = match LogPartition::new(&mut self.dir) {
            Ok(active) => active,
            Err(e) => {
                return Err(e);
            },
        };
        let i = self.hist.len();
        let ghost before = old(self)@;
        proof {
            lemma_rotated(before, active.file_id);
            Self::lemma_file_sizes(&self.dir);
            let parts = before.parts();
            assert(parts[parts.len() - 1] == before.active);
            assert(!old(self).hist_map@.contains_key(before.active.file_id)) by {
                if old(self).hist_map@.contains_key(before.active.file_id) {
                    let j = old(self).hist_map@[before.active.file_id] as int;
                    assert(parts[j] == before.hist[j]);
                    assert(parts[j].file_id != parts[parts.len() - 1].file_id);
                }
            }
        }
        self.hist_map.insert(self.active.file_id, i);
        self.hist.push(self.active);
        self.active = active;
        proof {
            assert(self@ == before.rotated(active.file_id));
            assert(is_position_map(self.hist_map@, self.hist@)) by {
                assert forall|k: int| 0 <= k < self.hist@.len() implies self.hist_map@.contains_key(
                    (#[trigger] self.hist@[k]).file_id,
                ) && self.hist_map@[self.hist@[k].file_id] == k by {
                    if k < i {
                        assert(self.hist@[k] == before.hist[k]);
                    }
                }
                assert forall|id: u128| #[trigger]
                    self.hist_map@.contains_key(id) implies self.hist_map@[id] < self.hist@.len()
                    && self.hist@[self.hist_map@[id] as int].file_id == id by {
                    if id != before.active.file_id {
                        assert(old(self).hist_map@.contains_key(id));
                        let j = old(self).hist_map@[id] as int;
                        assert(self.hist@[j] == before.hist[j]);
                    }
                }
            }
        }
        Ok(())
    }

    /// Writes the metadata file anew, so that it describes the log as it is
    /// now.
    fn write_meta(&mut self)
        requires
            old(self).sound(),
        ensures
            final(self).wf(),
            final(self).dir.extends(&old(self).dir),
            final(self).dir.pending().len() == old(self).dir.pending().len() + 1,
            touches_only(&old(self).dir, &final(self).dir, set![meta_file_name()]),
            final(self)@ == old(self)@.with_meta(),
            final(self)@.records() == old(self)@.records(),
            final(self)@.clean() == old(self)@.clean(),
            final(self)@.entry_total() == old(self)@.entry_total(),
    {
        proof {
            self.dir.lemma_extends_refl();
        }
        let meta = LogMeta {
            dirname: self.dirname.clone(),
            active: self.active,
            hist: copy_partitions(&self.hist),
        };
        assert(meta@ == meta_of(self@));
        match encode_meta(&meta) {
            Err(_) => {},
            Ok(text) => {
                proof {
                    vstd::std_specs::vec::axiom_spec_len(&text);
                    lemma_with_meta(self@);
                }
                self.dir.write(meta_name(), text);
                proof {
                    lemma_touches_one(&old(self).dir, &self.dir, meta_file_name());
                }
            },
        }
    }

    /// Seals the active partition, starts a new, empty one, and writes the
    /// metadata file anew.
    pub fn initialize_new_active(&mut self) -> (r: Result<()>)
        requires
            old(self).wf(),
        ensures
            final(self).wf(),
            final(self).spec_directory().extends(&old(self).spec_directory()),
            crash_safe(
                &old(self).spec_directory(),
                &final(self).spec_directory(),
                old(self)@,
                final(self)@,
            ),
            match r {
                Ok(()) => !old(self)@.files.contains_key(final(self)@.active.name())
                    && final(self)@ == old(self)@.renewed(final(self)@.active.file_id),
                Err(e) => e == KvsError::Io(IoErrorKind::AlreadyExists) && final(self)@ == old(
                    self,
                )@,
            },
    {
        let ghost was = self@;
        proof {
            lemma_tells_itself(was);
        }
        match self.rotate() {
            Ok(()) => {},
            Err(e) => {
                proof {
                    lemma_safe_step(&old(self).dir, &self.dir, was, was);
                }
                return Err(e);
            },
        }
        let ghost rotated = self.dir;
        proof {
            assert forall|i: int| 0 <= i < was.parts().len() implies same_at(
                rotated@,
                was.files,
                (#[trigger] was.parts()[i]).name(),
            ) by {
                assert(was.files.contains_key(was.parts()[i].name()));
            }
            lemma_tells_beside(was, rotated@);
            lemma_safe_step(&old(self).dir, &rotated, was, was);
        }
        self.write_meta();
        proof {
            self.dir.lemma_extends_trans(&rotated, &old(self).dir);
            lemma_tells_itself(self@);
            lemma_safe_step(&rotated, &self.dir, was, self@);
            lemma_safe_join(&old(self).dir, &rotated, &self.dir, was, was, self@);
        }
        Ok(())
    }

    /// Adds `bytes` at the end of the active partition, which is not full,
    /// and counts them as one entry. Returns the place of the bytes.
    fn add_to_active(&mut self, bytes: &[u8]) -> (r: Result<LogPointer>)
        requires
            old(self).sound(),
            old(self)@.active.entry_count < PARTITION_CAPACITY,
        ensures
            final(self).sound(),
            old(self).wf() ==> final(self).wf(),
            final(self).dir.extends(&old(self).dir),
            final(self).dir.pending().len() == old(self).dir.pending().len() + 1,
            touches_only(&old(self).dir, &final(self).dir, set![old(self)@.active.name()]),
            r == Ok::<LogPointer, KvsError>(old(self)@.next_pointer(bytes@)),
            final(self)@ == old(self)@.with_chunk(bytes@),
            final(self)@.entry_total() == old(self)@.entry_total() + 1,
    {
        let ghost before = self@;
        let name = self.active.file_name();
        proof {
            let parts = before.parts();
            assert(parts[parts.len() - 1] == before.active);
            assert(before.files.contains_key(parts[parts.len() - 1].name()));
        }
        let offset = match self.dir.append(&name, bytes) {
            Ok(offset) => offset,
            Err(_) => {
                return Err(KvsError::InvalidLogFileHandle);
            },
        };
        self.active.entry_count = self.active.entry_count + 1;
        proof {
            self.dir.lemma_file_len(name@);
            lemma_with_chunk_wf(before, bytes@);
            Self::lemma_file_sizes(&self.dir);
            assert(self@ == before.with_chunk(bytes@));
            lemma_touches_one(&old(self).dir, &self.dir, before.active.name());
            if before.described() {
                lemma_partition_file_name_is_not_meta(before.active.file_id);
                assert(same_ids(before.parts(), self@.parts())) by {
                    assert forall|i: int| 0 <= i < before.parts().len() implies (
                    #[trigger] before.parts()[i]).file_id == self@.parts()[i].file_id by {
                        if i < before.hist.len() {
                            assert(before.parts()[i] == self@.parts()[i]);
                        }
                    }
                }
                lemma_described_still(before, self@);
            }
        }
        Ok(
            LogPointer {
                file_id: self.active.file_id,
                offset: offset as u64,
                len: bytes.len() as u64,
            },
        )
    }

    /// Adds `bytes` to a log that is filled anew: a new partition is started
    /// where the active one is full, without writing the metadata file, and
    /// the bytes are added to the active partition.
    fn add_bytes(&mut self, bytes: &[u8]) -> (r: Result<LogPointer>)
        requires
            old(self).sound(),
        ensures
            final(self).sound(),
            final(self).dir.extends(&old(self).dir),
            touches_only(&old(self).dir, &final(self).dir, set![final(self)@.active.name()]),
            match r {
                Ok(ptr) => {
                    let room = old(self)@.made_room(final(self)@.active.file_id);
                    &&& old(self)@.admits(final(self)@.active.file_id)
                    &&& room.wf()
                    &&& final(self)@ == room.with_chunk(bytes@)
                    &&& ptr == room.next_pointer(bytes@)
                    &&& final(self)@.entry_total() == old(self)@.entry_total() + 1
                },
                Err(e) => old(self)@.active.entry_count == PARTITION_CAPACITY && e == KvsError::Io(
                    IoErrorKind::AlreadyExists,
                ) && final(self)@ == old(self)@,
            },
    {
        proof {
            self.dir.lemma_extends_refl();
            Self::lemma_untouched(&self.dir, set![self@.active.name()]);
        }
        if self.active.entry_count == PARTITION_CAPACITY {
            match self.rotate() {
                Ok(()) => {},
                Err(e) => {
                    proof {
                        Self::lemma_untouched(&self.dir, set![self@.active.name()]);
                        assert(touches_only(&old(self).dir, &self.dir, set![self@.active.name()]))
                            by {
                            assert forall|count: int, name: Seq<char>|
                                old(self).dir.pending().len() <= count <= self.dir.pending().len()
                                    && !set![self@.active.name()].contains(
                                    name,
                                ) implies #[trigger] same_at(
                                self.dir.files_after(count),
                                old(self).dir@,
                                name,
                            ) by {
                                self.dir.lemma_one_step(&old(self).dir, count);
                            }
                        }
                    }
                    return Err(e);
                },
            }
            proof {
                lemma_rotated(old(self)@, self@.active.file_id);
            }
        }
        let ghost room_dir = self.dir;
        let r = self.add_to_active(bytes);
        proof {
            self.dir.lemma_extends_trans(&room_dir, &old(self).dir);
            let name = self@.active.name();
            lemma_touches_join(&old(self).dir, &room_dir, &self.dir, set![name], set![name]);
            assert(set![name].union(set![name]) =~= set![name]);
        }
        r
    }

    /// An image that is not changed touches no name.
    proof fn lemma_untouched(dir: &Directory, names: Set<Seq<char>>)
        requires
            dir.wf(),
        ensures
            touches_only(dir, dir, names),
    {
        assert forall|count: int, name: Seq<char>|
            dir.pending().len() <= count <= dir.pending().len() && !names.contains(
                name,
            ) implies #[trigger] same_at(dir.files_after(count), dir@, name) by {
            dir.lemma_files_after_all();
        }
    }

    /// Changes from one log to another by one change at most are safe.
    proof fn lemma_step_safe(before: &Log, after: &Log)
        requires
            before.wf(),
            after.wf(),
            after.dir.extends(&before.dir),
            after.dir.pending().len() <= before.dir.pending().len() + 1,
        ensures
            crash_safe(&before.dir, &after.dir, before@, after@),
    {
        lemma_tells_itself(before@);
        lemma_tells_itself(after@);
        lemma_safe_step(&before.dir, &after.dir, before@, after@);
    }

    /// Adds `entry` at the end of the active partition and counts it as one
    /// entry, after starting a new partition where the active one is full.
    /// Returns the place of the bytes.
    pub fn append_bytes(&mut self, entry: &[u8]) -> (r: Result<LogPointer>)
        requires
            old(self).wf(),
        ensures
            final(self).wf(),
            final(self).spec_directory().extends(&old(self).spec_directory()),
            crash_safe(
                &old(self).spec_directory(),
                &final(self).spec_directory(),
                old(self)@,
                final(self)@,
            ),
            match r {
                Ok(ptr) => {
                    &&& old(self)@.admits(final(self)@.active.file_id)
                    &&& old(self)@.made_ready(final(self)@.active.file_id).wf()
                    &&& final(self)@ == old(self)@.appended(entry@, final(self)@.active.file_id)
                    &&& ptr == old(self)@.place_for(entry@, final(self)@.active.file_id)
                    &&& final(self)@.entry_total() == old(self)@.entry_total() + 1
                },
                Err(e) => old(self)@.active.entry_count == PARTITION_CAPACITY && e == KvsError::Io(
                    IoErrorKind::AlreadyExists,
                ) && final(self)@ == old(self)@,
            },
    {
        proof {
            self.dir.lemma_extends_refl();
            Self::lemma_step_safe(old(self), self);
        }
        if self.active.entry_count == PARTITION_CAPACITY {
            match self.initialize_new_active() {
                Ok(()) => {},
                Err(e) => {
                    return Err(e);
                },
            }
            proof {
                lemma_rotated(old(self)@, self@.active.file_id);
                assert(self@.entry_total() == old(self)@.entry_total());
            }
        }
        let ghost ready = *self;
        let r = self.add_to_active(entry);
        proof {
            self.dir.lemma_extends_trans(&ready.dir, &old(self).dir);
            Self::lemma_step_safe(&ready, self);
            lemma_made_ready(old(self)@, ready@.active.file_id);
            lemma_safe_join(&old(self).dir, &ready.dir, &self.dir, old(self)@, ready@, self@);
        }
        r
    }

    /// Writes `entry` at the end of the active partition, after starting a
    /// new partition where the active one is full. Returns the place of the
    /// entry.
    pub fn append(&mut self, entry: &KvsEntry) -> (r: Result<LogPointer>)
        requires
            old(self).wf(),
        ensures
            final(self).wf(),
            final(self).spec_directory().extends(&old(self).spec_directory()),
            crash_safe(
                &old(self).spec_directory(),
                &final(self).spec_directory(),
                old(self)@,
                final(self)@,
            ),
            match r {
                Ok(ptr) => {
                    &&& encodable(entry@)
                    &&& old(self)@.admits(final(self)@.active.file_id)
                    &&& old(self)@.made_ready(final(self)@.active.file_id).wf()
                    &&& final(self)@ == old(self)@.appended(
                        text_of(entry@),
                        final(self)@.active.file_id,
                    )
                    &&& ptr == old(self)@.place_for(text_of(entry@), final(self)@.active.file_id)
                    &&& final(self)@.entry_total() == old(self)@.entry_total() + 1
                },
                Err(e) => if e == KvsError::Io(IoErrorKind::AlreadyExists) {
                    old(self)@.active.entry_count == PARTITION_CAPACITY && final(self)@ == old(
                        self,
                    )@
                } else {
                    &&& e == KvsError::Serde(SerdeErrorKind::Unencodable)
                    &&& !encodable(entry@)
                    &&& old(self)@.admits(final(self)@.active.file_id)
                    &&& final(self)@ == old(self)@.made_ready(final(self)@.active.file_id)
                },
            },
    {
        proof {
            self.dir.lemma_extends_refl();
            Self::lemma_step_safe(old(self), self);
        }
        if self.active.entry_count == PARTITION_CAPACITY {
            match self.initialize_new_active() {
                Ok(()) => {},
                Err(e) => {
                    return Err(e);
                },
            }
            proof {
                lemma_rotated(old(self)@, self@.active.file_id);
                assert(self@.entry_total() == old(self)@.entry_total());
            }
        }
        let ghost ready = *self;
        let text = match encode_entry(entry) {
            Ok(text) => text,
            Err(e) => {
                return Err(e);
            },
        };
        let r = self.add_to_active(text.as_slice());
        proof {
            self.dir.lemma_extends_trans(&ready.dir, &old(self).dir);
            Self::lemma_step_safe(&ready, self);
            lemma_made_ready(old(self)@, ready@.active.file_id);
            lemma_safe_join(&old(self).dir, &ready.dir, &self.dir, old(self)@, ready@, self@);
        }
        r
    }

    /// Reads the entry at the place `ptr`: the bytes of the partition from
    /// where `ptr` starts, as many as `ptr` says or as are there, are to
    /// hold one entry.
    pub fn retrieve(&self, ptr: &LogPointer) -> (r: Result<KvsEntry>)
        requires
            self.wf(),
            self@.knows(ptr.file_id),
        ensures
            match r {
                Ok(entry) => parse_one(window_at(self@.file(ptr.file_id), *ptr)) == Some(entry@),
                Err(e) => parse_one(window_at(self@.file(ptr.file_id), *ptr)).is_none() && e
                    == KvsError::Serde(SerdeErrorKind::MalformedEntry),
            },
    {
        let partition = match self.hist_map.get(&ptr.file_id) {
            Some(i) => self.hist[*i],
            None => self.active,
        };
        proof {
            let parts = self@.parts();
            let i = choose|i: int| 0 <= i < parts.len() && (#[trigger] parts[i]).file_id
                == ptr.file_id;
            if i < self.hist@.len() {
                assert(parts[i] == self.hist@[i]);
            }
            assert(partition.file_id == ptr.file_id);
            assert(self@.files.contains_key(parts[i].name()));
        }
        let name = partition.file_name();
        let data = match self.dir.read(&name) {
            Some(data) => data,
            None => {
                return Err(KvsError::Serde(SerdeErrorKind::MalformedEntry));
            },
        };
        let size = data.len();
        let from: usize = if ptr.offset <= size as u64 {
            ptr.offset as usize
        } else {
            size
        };
        let to: usize = if ptr.offset <= size as u64 && ptr.len <= size as u64 - ptr.offset {
            (ptr.offset + ptr.len) as usize
        } else {
            size
        };
        let window = slice_subrange(data.as_slice(), from, to);
        match decode_entry(window, 0) {
            None => Err(KvsError::Serde(SerdeErrorKind::MalformedEntry)),
            Some((entry, _, end)) => {
                if skip_white_space(window, end) >= window.len() {
                    Ok(entry)
                } else {
                    Err(KvsError::Serde(SerdeErrorKind::MalformedEntry))
                }
            },
        }
    }

    /// A reader at the start of the log.
    pub fn iter(&self) -> (it: LogIter<'_>)
        requires
            self.wf(),
        ensures
            it.wf(),
            it.log() == self@,
            it.yielded() == Seq::<Record>::empty(),
            !it.failed(),
    {
        LogIter::new(self)
    }

    /// Adds to this log, which starts empty beside the files of the log
    /// `pre`, the bytes that `pointers` pick out of `pre`, in their order.
    /// Stops at the first pointer that cannot be read, or when a new
    /// partition cannot be started, and returns the error.
    fn copy_chunks(
        &mut self,
        pointers: &Vec<LogPointer>,
        saved_map: &HashMap<u128, usize>,
        saved_hist: &Vec<LogPartition>,
        saved_active: LogPartition,
        Ghost(pre): Ghost<LogView>,
    ) -> (r: Option<KvsError>)
        requires
            old(self).sound(),
            pre.wf(),
            is_position_map(saved_map@, saved_hist@),
            saved_hist@ == pre.hist,
            saved_active == pre.active,
            old(self)@ == fresh_start(pre, old(self)@.active.file_id),
            !pre.files.contains_key(old(self)@.active.name()),
        ensures
            final(self).sound(),
            final(self).dir.extends(&old(self).dir),
            keeps(&old(self).dir, &final(self).dir, pre.files),
            grown_from(pre.files, final(self)@),
            final(self)@.dirname == pre.dirname,
            match r {
                None => {
                    let chunks = chunks_of(pre, pointers@);
                    &&& all_readable(pre, pointers@)
                    &&& final(self)@ == refill(old(self)@, chunks, ids_of(final(self)@.parts()))
                    &&& ids_of(final(self)@.parts())[0] == old(self)@.active.file_id
                    &&& final(self)@.entry_total() == pointers@.len()
                    &&& all_chunks(chunks) ==> final(self)@.clean() && entries_of(
                        final(self)@.records(),
                    ) == chunk_entries(chunks)
                },
                Some(e) => e == KvsError::Io(IoErrorKind::AlreadyExists) || exists|i: int|
                    0 <= i < pointers@.len() && pre.chunk(#[trigger] pointers@[i]).is_none() && e
                        == KvsError::Io(read_error(pre, pointers@[i])),
            },
    {
        let ghost start = self@;
        let ghost all = chunks_of(pre, pointers@);
        proof {
            self.dir.lemma_extends_refl();
            assert(start.parts() =~= seq![start.active]);
            assert(part_names(start.parts()).contains(start.active.name())) by {
                assert(start.parts()[0].name() == start.active.name());
            }
            assert(grown_from(pre.files, start));
            assert(all.subrange(0, 0) =~= Seq::<Seq<u8>>::empty());
            assert(start.parts().drop_last() =~= Seq::<LogPartition>::empty());
            assert(count_total(Seq::<LogPartition>::empty()) == 0);
            assert(scan(Seq::<u8>::empty(), 0).items.len() == 0);
            assert(start.files[start.active.name()] == Seq::<u8>::empty());
            assert(file_records(Seq::<u8>::empty(), start.active.file_id) =~= Seq::<
                Record,
            >::empty());
            assert(parts_records(start.files, Seq::<LogPartition>::empty()) =~= Seq::<
                Record,
            >::empty());
            assert(start.parts().last() == start.active);
            assert(start.records() =~= Seq::<Record>::empty());
            assert(entries_of(start.records()) =~= chunk_entries(all.subrange(0, 0)));
            lemma_keeps_start(&self.dir, pre.files);
        }
        let mut i: usize = 0;
        while i < pointers.len()
            invariant
                i <= pointers@.len(),
                self.sound(),
                old(self).sound(),
                self.dir.extends(&old(self).dir),
                keeps(&old(self).dir, &self.dir, pre.files),
                pre.wf(),
                is_position_map(saved_map@, saved_hist@),
                saved_hist@ == pre.hist,
                saved_active == pre.active,
                start == old(self)@,
                all == chunks_of(pre, pointers@),
                grown_from(pre.files, self@),
                self@.dirname == pre.dirname,
                forall|j: int| 0 <= j < i ==> pre.chunk(#[trigger] pointers@[j]).is_some(),
                self@ == refill(start, all.subrange(0, i as int), ids_of(self@.parts())),
                ids_of(self@.parts())[0] == start.active.file_id,
                self@.entry_total() == i,
                all_chunks(all.subrange(0, i as int)) ==> self@.clean() && entries_of(
                    self@.records(),
                ) == chunk_entries(all.subrange(0, i as int)),
            decreases pointers@.len() - i,
        {
            let ptr = pointers[i];
            let ghost now = self@;
            let ghost now_dir = self.dir;
            if !known_id(saved_map, saved_hist, saved_active, ptr.file_id) {
                return Some(KvsError::Io(IoErrorKind::NotFound));
            }
            let name = LogPartition::build_file_name(ptr.file_id);
            proof {
                let k = choose|k: int|
                    0 <= k < pre.parts().len() && (#[trigger] pre.parts()[k]).file_id
                        == ptr.file_id;
                assert(pre.files.contains_key(pre.parts()[k].name()));
                assert(pre.files.contains_key(name@));
            }
            let bytes = match self.dir.read_exact_at(&name, ptr.offset, ptr.len) {
                Ok(bytes) => bytes,
                Err(kind) => {
                    return Some(KvsError::Io(kind));
                },
            };
            assert(bytes@ == pre.chunk(ptr).unwrap());
            let added = self.add_bytes(bytes.as_slice());
            proof {
                let last = self@.parts().len() - 1;
                assert(self@.parts()[last] == self@.active);
                if added is Ok {
                    lemma_grown_step(pre.files, now, bytes@, self@);
                }
                assert(!pre.files.contains_key(self@.parts()[last].name()));
                lemma_keeps_on(
                    &old(self).dir,
                    &now_dir,
                    &self.dir,
                    pre.files,
                    set![self@.active.name()],
                );
            }
            match added {
                Ok(_) => {},
                Err(e) => {
                    proof {
                        self.dir.lemma_extends_trans(&now_dir, &old(self).dir);
                    }
                    return Some(e);
                },
            }
            proof {
                let next = self@;
                let done = all.subrange(0, i as int);
                let more = all.subrange(0, i + 1);
                self.dir.lemma_extends_trans(&now_dir, &old(self).dir);
                assert(more =~= done.push(bytes@));
                assert(next == now.made_room(next.active.file_id).with_chunk(bytes@));
                lemma_refill_step(start, done, now, bytes@, next);
                lemma_grown_step(pre.files, now, bytes@, next);
                assert(ids_of(next.parts())[0] == ids_of(now.parts())[0]) by {
                    assert(next.parts()[0].file_id == now.parts()[0].file_id);
                }
                if all_chunks(more) {
                    assert(all_chunks(done)) by {
                        assert forall|j: int| 0 <= j < done.len() implies is_chunk(
                            #[trigger] done[j],
                        ) by {
                            assert(done[j] == more[j]);
                        }
                    }
                    assert(is_chunk(more[i as int]));
                    lemma_said_step(now, bytes@, next);
                    assert(chunk_entries(more) =~= chunk_entries(done).push(
                        chunk_entry(bytes@),
                    ));
                }
            }
            i = i + 1;
        }
        proof {
            assert(all.subrange(0, i as int) =~= all);
        }
        None
    }

    /// Compacts the log: the bytes that `pointers` pick out of it are
    /// written, in their order, into a log of new partitions, which takes
    /// the place of this one; the files of the old partitions are deleted.
    /// Where a pointer cannot be read or a new partition cannot be started,
    /// the new files are deleted instead and the log is left as it was.
    pub fn compact(&mut self, pointers: &Vec<LogPointer>) -> (r: Result<()>)
        requires
            old(self).wf(),
        ensures
            final(self).wf(),
            final(self).spec_directory().extends(&old(self).spec_directory()),
            crash_safe(
                &old(self).spec_directory(),
                &final(self).spec_directory(),
                old(self)@,
                final(self)@,
            ),
            match r {
                Ok(()) => {
                    let chunks = chunks_of(old(self)@, pointers@);
                    &&& all_readable(old(self)@, pointers@)
                    &&& compacted(old(self)@, final(self)@, chunks)
                    &&& final(self)@.entry_total() == pointers@.len()
                    &&& all_chunks(chunks) ==> final(self)@.clean() && entries_of(
                        final(self)@.records(),
                    ) == chunk_entries(chunks)
                },
                Err(e) => {
                    &&& final(self)@ == old(self)@
                    &&& e == KvsError::Io(IoErrorKind::AlreadyExists) || exists|i: int|
                        0 <= i < pointers@.len() && old(self)@.chunk(
                            #[trigger] pointers@[i],
                        ).is_none() && e == KvsError::Io(read_error(old(self)@, pointers@[i]))
                },
            },
    {
        let ghost pre = self@;
        let ghost pre_dir = self.dir;
        proof {
            pre_dir.lemma_extends_refl();
            lemma_keeps_start(&pre_dir, pre.files);
        }
        let first = match LogPartition::new(&mut self.dir) {
            Ok(first) => first,
            Err(e) => {
                proof {
                    Self::lemma_step_safe(old(self), self);
                }
                return Err(e);
            },
        };
        let mut saved_hist: Vec<LogPartition> = Vec::new();
        std::mem::swap(&mut self.hist, &mut saved_hist);
        let mut saved_map: HashMap<u128, usize> = HashMap::new();
        std::mem::swap(&mut self.hist_map, &mut saved_map);
        let saved_active = self.active;
        self.active = first;
        let ghost start = self@;
        let ghost start_dir = self.dir;
        proof {
            Self::lemma_file_sizes(&self.dir);
            assert(start.parts() =~= seq![first]);
            assert(start == fresh_start(pre, first.file_id));
            lemma_keeps_on(&pre_dir, &pre_dir, &start_dir, pre.files, set![first.name()]);
        }
        let failure = self.copy_chunks(pointers, &saved_map, &saved_hist, saved_active, Ghost(pre));
        let ghost now = self@;
        let ghost now_dir = self.dir;
        proof {
            self.dir.lemma_extends_trans(&start_dir, &pre_dir);
            lemma_keeps_join(&pre_dir, &start_dir, &now_dir, pre.files);
        }
        match failure {
            None => {
                self.write_meta();
                let ghost told = self@;
                let ghost told_dir = self.dir;
                remove_files(&mut self.dir, &saved_hist, saved_active);
                proof {
                    let post = self@;
                    let chunks = chunks_of(pre, pointers@);
                    told_dir.lemma_extends_trans(&now_dir, &pre_dir);
                    self.dir.lemma_extends_trans(&told_dir, &pre_dir);
                    Self::lemma_file_sizes(&self.dir);
                    assert(post.parts() == now.parts());
                    assert forall|name: Seq<char>|
                        part_names(pre.parts()).contains(name) implies pre.files.contains_key(
                        name,
                    ) && name != meta_file_name() by {
                        let m = choose|m: int|
                            0 <= m < pre.parts().len() && (#[trigger] pre.parts()[m]).name()
                                == name;
                        assert(pre.files.contains_key(pre.parts()[m].name()));
                        lemma_partition_file_name_is_not_meta(pre.parts()[m].file_id);
                    }
                    assert forall|k: int| 0 <= k < now.parts().len() implies told.files[(
                    #[trigger] now.parts()[k]).name()] == post.files[now.parts()[k].name()]
                        && post.files.contains_key(now.parts()[k].name())
                        && !part_names(pre.parts()).contains(now.parts()[k].name()) by {
                        let name = now.parts()[k].name();
                        assert(told.files.contains_key(told.parts()[k].name()));
                        assert(!pre.files.contains_key(name));
                    }
                    lemma_parts_frame(told.files, post.files, now.parts());
                    assert(post.wf());
                    assert(same_ids(told.parts(), post.parts()));
                    lemma_described_still(told, post);
                    assert(filled(pre, post, chunks) == now);
                    assert(compacted(pre, post, chunks));
                    Self::lemma_compacted_safe(
                        &pre_dir,
                        &now_dir,
                        &told_dir,
                        &self.dir,
                        pre,
                        told,
                        post,
                    );
                }
                Ok(())
            },
            Some(e) => {
                remove_files(&mut self.dir, &self.hist, self.active);
                self.hist = saved_hist;
                self.hist_map = saved_map;
                self.active = saved_active;
                proof {
                    self.dir.lemma_extends_trans(&now_dir, &pre_dir);
                    lemma_grown_undone(pre.files, now);
                    assert(self@ == pre);
                    assert forall|name: Seq<char>| #[trigger]
                        pre.files.contains_key(name) implies !part_names(now.parts()).contains(
                        name,
                    ) by {
                        if part_names(now.parts()).contains(name) {
                            let m = choose|m: int|
                                0 <= m < now.parts().len() && (#[trigger] now.parts()[m]).name()
                                    == name;
                            assert(!pre.files.contains_key(now.parts()[m].name()));
                        }
                    }
                    lemma_keeps_on(
                        &pre_dir,
                        &now_dir,
                        &self.dir,
                        pre.files,
                        part_names(now.parts()),
                    );
                    lemma_safe_kept(&pre_dir, &self.dir, pre);
                }
                Err(e)
            },
        }
    }

    /// Compacting is safe: the old log opens until the metadata file
    /// describes the new one, and the new log opens from then on.
    proof fn lemma_compacted_safe(
        pre_dir: &Directory,
        now_dir: &Directory,
        told_dir: &Directory,
        post_dir: &Directory,
        pre: LogView,
        told: LogView,
        post: LogView,
    )
        requires
            pre.wf(),
            pre.described(),
            meta_encodable(meta_of(pre)),
            told.wf(),
            told.described(),
            meta_encodable(meta_of(told)),
            now_dir.wf(),
            told_dir.wf(),
            now_dir.extends(pre_dir),
            told_dir.extends(now_dir),
            post_dir.extends(told_dir),
            told_dir@ == told.files,
            keeps(pre_dir, now_dir, pre.files),
            told_dir.pending().len() <= now_dir.pending().len() + 1,
            touches_only(told_dir, post_dir, part_names(pre.parts())),
            !part_names(pre.parts()).contains(meta_file_name()),
            forall|i: int|
                0 <= i < told.parts().len() ==> !part_names(pre.parts()).contains(
                    (#[trigger] told.parts()[i]).name(),
                ),
            says_same(told, post),
        ensures
            crash_safe(pre_dir, post_dir, pre, post),
    {
        lemma_safe_kept(pre_dir, now_dir, pre);
        lemma_safe_end(pre_dir, now_dir, pre, pre);
        lemma_tells_itself(told);
        lemma_safe_step(now_dir, told_dir, pre, told);
        lemma_safe_join(pre_dir, now_dir, told_dir, pre, pre, told);
        lemma_safe_untouched(told_dir, post_dir, told, part_names(pre.parts()));
        told_dir.lemma_extends_trans(now_dir, pre_dir);
        lemma_safe_join(pre_dir, told_dir, post_dir, pre, told, told);
        lemma_safe_same(pre_dir, post_dir, pre, told, pre, post);
    }

    /// Writes the metadata file anew, so that it describes the log as it is
    /// now.
    pub fn dump_meta(&mut self) -> (r: Result<()>)
        requires
            old(self).wf(),
        ensures
            final(self).wf(),
            final(self).spec_directory().extends(&old(self).spec_directory()),
            crash_safe(
                &old(self).spec_directory(),
                &final(self).spec_directory(),
                old(self)@,
                final(self)@,
            ),
            r is Ok,
            final(self)@ == old(self)@.with_meta(),
    {
        self.write_meta();
        proof {
            Self::lemma_step_safe(old(self), self);
        }
        Ok(())
    }

    /// Ends the use of the log: writes the metadata file and hands the
    /// directory back.
    pub fn close(self) -> (dir: Directory)
        requires
            self.wf(),
        ensures
            dir.extends(&self.spec_directory()),
            dir@ == self@.with_meta().files,
            crash_safe(&self.spec_directory(), &dir, self@, self@),
    {
        let mut log = self;
        log.write_meta();
        proof {
            Self::lemma_step_safe(&self, &log);
            lemma_safe_same(&self.dir, &log.dir, self@, log@, self@, self@);
        }
        log.dir
    }
}

/// Reads a log entry by entry: the sealed partitions from the oldest on,
/// then the active partition.
pub struct LogIter<'a> {
    log: &'a Log,
    part: usize,
    current: Option<LogPartitionIter<'a>>,
    current_file_id: u128,
    done: bool,
    failed: bool,
    yielded: Ghost<Seq<Record>>,
    consumed: Ghost<int>,
}

impl<'a> LogIter<'a> {
    /// The log that is read.
    pub closed spec fn log(&self) -> LogView {
        self.log@
    }

    /// The entries that were handed out so far, each with its place.
    pub closed spec fn yielded(&self) -> Seq<Record> {
        self.yielded@
    }

    /// Whether the reading met bytes that are not an entry.
    pub closed spec fn failed(&self) -> bool {
        self.failed
    }

    /// A number that falls whenever a partition is opened or read to its
    /// end.
    pub closed spec fn parts_left(&self) -> nat {
        if self.done {
            0
        } else if self.current.is_some() {
            (2 * (self.log@.parts().len() - self.part)) as nat
        } else {
            (2 * (self.log@.parts().len() - self.part) + 1) as nat
        }
    }

    /// The number of bytes of the open partition that were not read yet.
    pub closed spec fn bytes_left(&self) -> nat {
        match self.current {
            Some(it) => (it.bytes().len() - it.pos()) as nat,
            None => 0,
        }
    }

    /// Whether this reader has less left to read than `before` had: fewer
    /// partitions to open or to end, or as many of these and fewer bytes of
    /// the open partition.
    pub open spec fn left_of(&self, before: &LogIter) -> bool {
        self.parts_left() < before.parts_left() || (self.parts_left() == before.parts_left()
            && self.bytes_left() < before.bytes_left())
    }

    /// What always holds of a reader.
    pub closed spec fn wf(&self) -> bool {
        let view = self.log@;
        let parts = view.parts();
        &&& self.log.wf()
        &&& self.part < parts.len()
        &&& self.failed || if self.done {
            &&& self.current.is_none()
            &&& self.yielded@ == view.records()
            &&& view.clean()
        } else {
            let part = parts[self.part as int];
            let earlier = parts.subrange(0, self.part as int);
            &&& parts_clean(view.files, earlier)
            &&& match self.current {
                None => self.yielded@ == parts_records(view.files, earlier),
                Some(it) => {
                    let whole = scan(it.bytes(), 0);
                    &&& it.wf()
                    &&& !it.done()
                    &&& it.bytes() == view.files[part.name()]
                    &&& self.current_file_id == part.file_id
                    &&& 0 <= self.consumed@ <= whole.items.len()
                    &&& whole.items.skip(self.consumed@) == it.rest().items
                    &&& whole.clean == it.rest().clean
                    &&& self.yielded@ == parts_records(view.files, earlier) + file_records(
                        it.bytes(),
                        part.file_id,
                    ).subrange(0, self.consumed@)
                },
            }
        }
    }

    /// A reader at the start of `log`.
    pub fn new(log: &'a Log) -> (it: LogIter<'a>)
        requires
            log.wf(),
        ensures
            it.wf(),
            it.log() == log@,
            it.yielded() == Seq::<Record>::empty(),
            !it.failed(),
    {
        let it = LogIter {
            log,
            part: 0,
            current: None,
            current_file_id: 0,
            done: false,
            failed: false,
            yielded: Ghost(Seq::empty()),
            consumed: Ghost(0),
        };
        proof {
            assert(log@.parts().subrange(0, 0) =~= Seq::<LogPartition>::empty());
        }
        it
    }

    /// Reads the next entry of the log. Returns it with its place. Returns
    /// `None` when the whole log was read, and an error where bytes are met
    /// that are not an entry; after an error it returns `None`.
    pub fn next(&mut self) -> (r: Option<Result<(KvsEntry, LogPointer)>>)
        requires
            old(self).wf(),
        ensures
            final(self).wf(),
            final(self).log() == old(self).log(),
            match r {
                None => {
                    &&& final(self).yielded() == old(self).yielded()
                    &&& final(self).failed() == old(self).failed()
                    &&& old(self).failed() || (final(self).yielded() == old(self).log().records()
                        && old(self).log().clean())
                },
                Some(Ok((entry, ptr))) => {
                    let at = old(self).yielded().len() as int;
                    &&& !old(self).failed()
                    &&& !final(self).failed()
                    &&& at < old(self).log().records().len()
                    &&& old(self).log().records()[at] == (Record { entry: entry@, ptr })
                    &&& final(self).yielded() == old(self).yielded().push(
                        Record { entry: entry@, ptr },
                    )
                    &&& final(self).left_of(old(self))
                },
                Some(Err(e)) => {
                    &&& !old(self).failed()
                    &&& final(self).failed()
                    &&& e == KvsError::Serde(SerdeErrorKind::MalformedEntry)
                    &&& !old(self).log().clean()
                    &&& final(self).yielded() == old(self).yielded()
                },
            },
    {
        if self.failed || self.done {
            return None;
        }
        let ghost view = self.log@;
        let ghost parts = view.parts();
        let count = self.log.hist.len();
        loop
            invariant
                self.wf(),
                !self.failed,
                !self.done,
                !old(self).failed,
                self.log == old(self).log,
                view == self.log@,
                parts == view.parts(),
                count == self.log.hist@.len(),
                self.yielded@ == old(self).yielded@,
                self.left_of(old(self)) || (self.parts_left() == old(self).parts_left()
                    && self.bytes_left() == old(self).bytes_left()),
            decreases self.parts_left(),
        {
            let ghost part = parts[self.part as int];
            let ghost earlier = parts.subrange(0, self.part as int);
            let ghost upto = parts.subrange(0, self.part + 1);
            proof {
                assert(upto.drop_last() =~= earlier);
                assert(upto.last() == part);
                assert(view.files.contains_key(parts[self.part as int].name()));
            }
            if self.current.is_none() {
                let chosen = if self.part < count {
                    self.log.hist[self.part]
                } else {
                    self.log.active
                };
                assert(chosen == part);
                let name = chosen.file_name();
                let bytes: &'a Vec<u8> = match self.log.dir.read(&name) {
                    Some(bytes) => bytes,
                    None => {
                        return None;
                    },
                };
                self.current = Some(LogPartitionIter::new(bytes.as_slice()));
                self.current_file_id = chosen.file_id;
                self.consumed = Ghost(0);
                proof {
                    let whole = scan(bytes@, 0);
                    assert(whole.items.skip(0) =~= whole.items);
                    assert(file_records(bytes@, part.file_id).subrange(0, 0) =~= Seq::<
                        Record,
                    >::empty());
                    assert(self.yielded@ =~= parts_records(view.files, earlier) + file_records(
                        bytes@,
                        part.file_id,
                    ).subrange(0, 0));
                }
            }
            let mut it = match self.current.take() {
                Some(it) => it,
                None => {
                    return None;
                },
            };
            let ghost whole = scan(it.bytes(), 0);
            let ghost k = self.consumed@;
            match it.next() {
                None => {
                    proof {
                        assert(whole.items.skip(k).len() == 0);
                        assert(k == whole.items.len());
                        assert(file_records(it.bytes(), part.file_id).subrange(0, k)
                            =~= file_records(it.bytes(), part.file_id));
                        assert forall|i: int| 0 <= i < upto.len() implies scan(
                            view.files[(#[trigger] upto[i]).name()],
                            0,
                        ).clean by {
                            if i < earlier.len() {
                                assert(upto[i] == earlier[i]);
                            }
                        }
                        assert(self.yielded@ == parts_records(view.files, upto));
                    }
                    self.current = None;
                    if self.part < count {
                        self.part = self.part + 1;
                    } else {
                        proof {
                            assert(upto =~= parts);
                            assert(self.yielded@ == view.records());
                            assert(view.clean());
                        }
                        self.done = true;
                        return None;
                    }
                },
                Some(Err(e)) => {
                    proof {
                        assert(!whole.clean);
                        assert(parts[self.part as int] == part);
                        assert(!view.clean());
                    }
                    self.failed = true;
                    self.current = None;
                    return Some(Err(e));
                },
                Some(Ok((entry, start))) => {
                    let end = it.current_offset();
                    let ptr = LogPointer {
                        file_id: self.current_file_id,
                        offset: start as u64,
                        len: (end - start) as u64,
                    };
                    proof {
                        let p = ParsedEntry { entry: entry@, start: start as int, end: end as int };
                        let rest = it.rest().items;
                        assert(whole.items.skip(k) == seq![p] + rest);
                        assert(whole.items.skip(k).len() == rest.len() + 1);
                        assert(k < whole.items.len());
                        assert(whole.items.skip(k)[0] == p);
                        assert(whole.items[k] == p);
                        assert(whole.items.skip(k + 1) =~= rest) by {
                            assert forall|i: int| 0 <= i < rest.len() implies whole.items.skip(
                                k + 1,
                            )[i] == rest[i] by {
                                assert(whole.items.skip(k)[i + 1] == (seq![p] + rest)[i + 1]);
                            }
                            assert(whole.items.skip(k).len() == rest.len() + 1);
                        }
                        let records = file_records(it.bytes(), part.file_id);
                        assert(records.subrange(0, k + 1) =~= records.subrange(0, k).push(
                            Record { entry: entry@, ptr },
                        ));
                        self.consumed@ = k + 1;
                        self.yielded@ = self.yielded@.push(Record { entry: entry@, ptr });
                    }
                    self.current = Some(it);
                    proof {
                        let first = parts_records(view.files, earlier) + file_records(
                            it.bytes(),
                            part.file_id,
                        ).subrange(0, k + 1);
                        assert(self.yielded@ =~= first);
                        lemma_records_prefix(view.files, parts, self.part as int, k + 1);
                        let at = old(self).yielded@.len() as int;
                        assert(view.records().subrange(0, first.len() as int)[at] == first[at]);
                    }
                    return Some(Ok((entry, ptr)));
                },
            }
        }
    }
}

} // verus!
