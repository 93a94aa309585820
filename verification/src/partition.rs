//! The partitions of a log, and the places of entries in them.

use crate::clock::now_nanos;
use crate::directory::{Directory, Files};
use crate::entry::{decode_entry, parse_entry, KvsEntry, ParsedEntry};
use crate::error::{IoErrorKind, KvsError, Result, SerdeErrorKind};
use crate::json::{lemma_skip_ws_bounds, skip_white_space};
use crate::names::{join_path, joined_path, partition_file_name, push_hex};
use crate::recovery::{lemma_touches_one, touches_only};
use crate::stream::{scan, Scan};
use vstd::prelude::*;
use vstd::string::StringExecFns;

verus! {

/// The number of entries after which a partition takes no more.
pub const PARTITION_CAPACITY: u16 = 65535;

/// How often `LogPartition::new` draws an identifier before it gives up.
pub const MAX_CREATE_ATTEMPTS: u32 = 64;

/// One file of the log: its identifier, and how many entries were counted
/// into it.
#[derive(Debug, Clone, Copy, PartialEq, Eq, Structural)]
pub struct LogPartition {
    pub entry_count: u16,
    pub file_id: u128,
}

/// The place of one entry: the partition that holds it, where its text
/// starts there, and how many bytes the text has.
#[derive(Debug, Clone, Copy, PartialEq, Eq, Structural)]
pub struct LogPointer {
    pub file_id: u128,
    pub offset: u64,
    pub len: u64,
}

impl LogPointer {
    /// The number of bytes of the entry.
    pub fn len(&self) -> (n: u64)
        ensures
            n == self.len,
    {
        self.len
    }

    /// Where the entry starts in its partition.
    pub fn offset(&self) -> (n: u64)
        ensures
            n == self.offset,
    {
        self.offset
    }
}

/// Whether one of `files` has the name of a partition file. Only then can
/// the name that is drawn for a new partition be taken.
pub open spec fn has_partition_file(files: Files) -> bool {
    exists|file_id: u128| files.contains_key(#[trigger] partition_file_name(file_id))
}

impl LogPartition {
    /// The name of the file of this partition.
    pub open spec fn name(self) -> Seq<char> {
        partition_file_name(self.file_id)
    }

    /// Creates the partition with identifier `file_id` in `dir`, as a new and
    /// empty file. Fails where a file of that name is already there.
    pub fn create(dir: &mut Directory, file_id: u128) -> (r: Result<LogPartition>)
        requires
            old(dir).wf(),
        ensures
            final(dir).extends(old(dir)),
            touches_only(old(dir), final(dir), set![partition_file_name(file_id)]),
            match r {
                Ok(p) => {
                    &&& p == (LogPartition { entry_count: 0, file_id })
                    &&& !old(dir)@.contains_key(p.name())
                    &&& final(dir)@ == old(dir)@.insert(p.name(), Seq::empty())
                    &&& final(dir).pending().len() == old(dir).pending().len() + 1
                },
                Err(e) => {
                    &&& old(dir)@.contains_key(partition_file_name(file_id))
                    &&& e == KvsError::Io(IoErrorKind::AlreadyExists)
                    &&& final(dir)@ == old(dir)@
                    &&& final(dir).pending() == old(dir).pending()
                },
            },
    {
        let name = LogPartition::build_file_name(file_id);
        let made = dir.create_new(name);
        proof {
            lemma_touches_one(old(dir), dir, partition_file_name(file_id));
        }
        match made {
            Ok(()) => Ok(LogPartition { entry_count: 0, file_id }),
            Err(kind) => Err(KvsError::Io(kind)),
        }
    }

    /// Creates a fresh partition in `dir`. Its identifier is drawn from the
    /// clock; where a file of that name is already there, another is drawn,
    /// up to `MAX_CREATE_ATTEMPTS` times in all. It fails only where every
    /// name that was drawn is taken; so it succeeds, whatever the clock
    /// says, where no file of `dir` has the name of a partition file.
    pub fn new(dir: &mut Directory) -> (r: Result<LogPartition>)
        requires
            old(dir).wf(),
        ensures
            final(dir).extends(old(dir)),
            match r {
                Ok(p) => {
                    &&& p.entry_count == 0
                    &&& !old(dir)@.contains_key(p.name())
                    &&& final(dir)@ == old(dir)@.insert(p.name(), Seq::empty())
                    &&& final(dir).pending().len() == old(dir).pending().len() + 1
                    &&& touches_only(old(dir), final(dir), set![p.name()])
                },
                Err(e) => {
                    &&& e == KvsError::Io(IoErrorKind::AlreadyExists)
                    &&& has_partition_file(old(dir)@)
                    &&& final(dir)@ == old(dir)@
                    &&& final(dir).pending() == old(dir).pending()
                },
            },
    {
        let mut attempts: u32 = 0;
        proof {
            dir.lemma_extends_refl();
        }
        while attempts < MAX_CREATE_ATTEMPTS
            invariant
                dir.extends(old(dir)),
                dir@ == old(dir)@,
                dir.pending() == old(dir).pending(),
                old(dir).wf(),
                attempts > 0 ==> has_partition_file(old(dir)@),
            decreases MAX_CREATE_ATTEMPTS - attempts,
        {
            let file_id = now_nanos();
            let ghost before = *dir;
            let made = LogPartition::create(dir, file_id);
            proof {
                dir.lemma_extends_trans(&before, old(dir));
            }
            match made {
                Ok(p) => {
                    proof {
                        lemma_touches_one(old(dir), dir, p.name());
                    }
                    return Ok(p);
                },
                Err(_) => {},
            }
            attempts = attempts + 1;
        }
        Err(KvsError::Io(IoErrorKind::AlreadyExists))
    }

    /// The name of the file of the partition with identifier `file_id`: the
    /// identifier in lower-case hexadecimal, followed by `.dblog`.
    pub fn build_file_name(file_id: u128) -> (name: String)
        ensures
            name@ == partition_file_name(file_id),
    {
        let mut name = String::new();
        push_hex(&mut name, file_id);
        proof {
            reveal_strlit(".dblog");
        }
        name.append(".dblog");
        assert(name@ =~= partition_file_name(file_id));
        name
    }

    /// The name of the file of this partition.
    pub fn file_name(&self) -> (name: String)
        ensures
            name@ == self.name(),
    {
        LogPartition::build_file_name(self.file_id)
    }

    /// The path of the file of this partition, for a log in `dirname`.
    pub fn full_path(&self, dirname: &str) -> (path: String)
        ensures
            path@ == joined_path(dirname@, self.name()),
    {
        let name = self.file_name();
        join_path(dirname, name.as_str())
    }
}

/// Reads one partition, entry by entry, from its first byte on.
pub struct LogPartitionIter<'a> {
    bytes: &'a [u8],
    pos: usize,
    done: bool,
}

impl<'a> LogPartitionIter<'a> {
    /// The bytes that are read.
    pub closed spec fn bytes(&self) -> Seq<u8> {
        self.bytes@
    }

    /// The position after the entry that was read last.
    pub closed spec fn pos(&self) -> int {
        self.pos as int
    }

    /// Whether the reading has ended.
    pub closed spec fn done(&self) -> bool {
        self.done
    }

    /// What always holds of a reader.
    pub closed spec fn wf(&self) -> bool {
        self.pos <= self.bytes@.len()
    }

    /// What is left to read.
    pub open spec fn rest(&self) -> Scan {
        scan(self.bytes(), self.pos())
    }

    /// A reader at the start of `bytes`.
    pub fn new(bytes: &'a [u8]) -> (it: LogPartitionIter<'a>)
        ensures
            it.wf(),
            it.bytes() == bytes@,
            it.pos() == 0,
            !it.done(),
    {
        LogPartitionIter { bytes, pos: 0, done: false }
    }

    /// The position after the entry that was read last.
    pub fn current_offset(&self) -> (offset: usize)
        ensures
            offset == self.pos(),
    {
        self.pos
    }

    /// Reads the next entry. Returns it with the position at which its text
    /// starts. Returns `None` at the end of the bytes, and from then on; an
    /// error where the bytes that follow are not an entry, and `None` from
    /// then on.
    pub fn next(&mut self) -> (r: Option<Result<(KvsEntry, usize)>>)
        requires
            old(self).wf(),
        ensures
            final(self).wf(),
            final(self).bytes() == old(self).bytes(),
            match r {
                None => (old(self).done() || old(self).rest() == (Scan {
                    items: Seq::empty(),
                    clean: true,
                })) && final(self).done() && final(self).pos() == old(self).pos(),
                Some(Ok((entry, start))) => {
                    let p = ParsedEntry {
                        entry: entry@,
                        start: start as int,
                        end: final(self).pos(),
                    };
                    &&& !old(self).done()
                    &&& !final(self).done()
                    &&& parse_entry(old(self).bytes(), old(self).pos()) == Some(p)
                    &&& old(self).pos() <= p.start < p.end <= old(self).bytes().len()
                    &&& old(self).rest().items == seq![p] + final(self).rest().items
                    &&& old(self).rest().clean == final(self).rest().clean
                },
                Some(Err(e)) => {
                    &&& !old(self).done()
                    &&& final(self).done()
                    &&& final(self).pos() == old(self).pos()
                    &&& old(self).rest() == (Scan { items: Seq::empty(), clean: false })
                    &&& e == KvsError::Serde(SerdeErrorKind::MalformedEntry)
                },
            },
    {
        if self.done {
            return None;
        }
        proof {
            lemma_skip_ws_bounds(self.bytes@, self.pos as int);
        }
        if self.pos >= self.bytes.len() || skip_white_space(self.bytes, self.pos)
            >= self.bytes.len() {
            self.done = true;
            return None;
        }
        match decode_entry(self.bytes, self.pos) {
            None => {
                self.done = true;
                Some(Err(KvsError::Serde(SerdeErrorKind::MalformedEntry)))
            },
            Some((entry, start, end)) => {
                self.pos = end;
                Some(Ok((entry, start)))
            },
        }
    }
}

} // verus!
