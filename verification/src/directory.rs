//! The directory that holds a log, as an image in memory.
//!
//! The engine reads and changes the image only. Each change is also written
//! down as a [`DiskOp`]; a host that applies these operations, in order, to
//! the files that the image was loaded from ends with files that hold what
//! the image holds.

use crate::error::IoErrorKind;
use vstd::prelude::*;
use vstd::slice::{slice_subrange, slice_to_vec};

verus! {

/// What a directory holds: for each file name, the bytes of the file.
pub type Files = Map<Seq<char>, Seq<u8>>;

/// One change to the files of a directory.
#[derive(Debug, Clone, PartialEq, Eq)]
pub enum DiskOp {
    /// A new, empty file is created.
    Create { name: String },
    /// Bytes are added at the end of a file.
    Append { name: String, bytes: Vec<u8> },
    /// A file is created or emptied, and then holds the bytes.
    Write { name: String, bytes: Vec<u8> },
    /// A file is deleted.
    Remove { name: String },
}

impl DiskOp {
    /// The files after this change was made to `files`.
    pub open spec fn apply(self, files: Files) -> Files {
        match self {
            DiskOp::Create { name } => files.insert(name@, Seq::empty()),
            DiskOp::Append { name, bytes } => if files.contains_key(name@) {
                files.insert(name@, files[name@] + bytes@)
            } else {
                files
            },
            DiskOp::Write { name, bytes } => files.insert(name@, bytes@),
            DiskOp::Remove { name } => files.remove(name@),
        }
    }
}

/// The files after the changes `ops` were made to `files`, first to last.
pub open spec fn apply_ops(files: Files, ops: Seq<DiskOp>) -> Files
    decreases ops.len(),
{
    if ops.len() == 0 {
        files
    } else {
        ops.last().apply(apply_ops(files, ops.drop_last()))
    }
}

/// One file of the image.
pub struct FileSlot {
    name: String,
    data: Vec<u8>,
}

/// The image of a directory, with the changes that were made to it since
/// they were last handed out.
pub struct Directory {
    slots: Vec<FileSlot>,
    journal: Vec<DiskOp>,
    synced: Ghost<Files>,
}

/// Whether no two of the files have the same name.
spec fn names_distinct(slots: Seq<FileSlot>) -> bool {
    forall|i: int, j: int|
        0 <= i < slots.len() && 0 <= j < slots.len() && i != j ==> (#[trigger] slots[i]).name@ != (
        #[trigger] slots[j]).name@
}

/// Whether the file at position `i` has the name `name`.
spec fn has_slot(slots: Seq<FileSlot>, name: Seq<char>, i: int) -> bool {
    0 <= i < slots.len() && slots[i].name@ == name
}

/// A position at which a file with the name `name` stands.
spec fn slot_of(slots: Seq<FileSlot>, name: Seq<char>) -> int {
    choose|i: int| has_slot(slots, name, i)
}

/// What the files hold, by name.
spec fn slots_map(slots: Seq<FileSlot>) -> Files {
    Map::new(
        |name: Seq<char>| exists|i: int| has_slot(slots, name, i),
        |name: Seq<char>| slots[slot_of(slots, name)].data@,
    )
}

/// Among files with names of their own, each is found under its name.
proof fn lemma_slot_present(slots: Seq<FileSlot>, i: int)
    requires
        names_distinct(slots),
        0 <= i < slots.len(),
    ensures
        slots_map(slots).contains_key(slots[i].name@),
        slots_map(slots)[slots[i].name@] == slots[i].data@,
{
    let name = slots[i].name@;
    assert(has_slot(slots, name, i));
    let j = slot_of(slots, name);
    assert(has_slot(slots, name, j));
    assert(i == j);
}

impl View for Directory {
    type V = Files;

    closed spec fn view(&self) -> Files {
        slots_map(self.slots@)
    }
}

impl Directory {
    /// The changes that were made to the image since they were last handed
    /// out.
    pub closed spec fn pending(&self) -> Seq<DiskOp> {
        self.journal@
    }

    /// What the image held when the changes were last handed out.
    pub closed spec fn synced(&self) -> Files {
        self.synced@
    }

    /// What always holds of an image: no two of its files have the same
    /// name, and the pending changes lead from what was handed out to what
    /// the image holds now.
    pub closed spec fn wf(&self) -> bool {
        &&& names_distinct(self.slots@)
        &&& apply_ops(self.synced@, self.journal@) == self@
    }

    /// Whether this image came from `before` by changes alone, each of them
    /// written down after those that were pending in `before`.
    pub open spec fn extends(&self, before: &Directory) -> bool {
        &&& self.wf()
        &&& self.synced() == before.synced()
        &&& before.pending().len() <= self.pending().len()
        &&& self.pending().subrange(0, before.pending().len() as int) == before.pending()
    }

    /// The files after the first `count` of the pending changes were made to
    /// what the image held when changes were last handed out: the state
    /// that a host is in that has carried over so many of them.
    pub open spec fn files_after(&self, count: int) -> Files {
        apply_ops(self.synced(), self.pending().subrange(0, count))
    }

    /// After all pending changes the files are those that the image holds.
    pub proof fn lemma_files_after_all(&self)
        requires
            self.wf(),
        ensures
            self.files_after(self.pending().len() as int) == self@,
    {
        assert(self.pending().subrange(0, self.pending().len() as int) =~= self.pending());
    }

    /// The states that an image went through stay what they were when more
    /// changes are made.
    pub proof fn lemma_files_after_kept(&self, before: &Directory, count: int)
        requires
            self.extends(before),
            0 <= count <= before.pending().len(),
        ensures
            self.files_after(count) == before.files_after(count),
    {
        let n = before.pending().len() as int;
        assert(self.pending().subrange(0, count) =~= self.pending().subrange(0, n).subrange(
            0,
            count,
        ));
    }

    /// An image that extends another by no change, or by one, went through
    /// no state but that of the other and its own.
    pub proof fn lemma_one_step(&self, before: &Directory, count: int)
        requires
            before.wf(),
            self.extends(before),
            self.pending().len() <= before.pending().len() + 1,
            before.pending().len() <= count <= self.pending().len(),
        ensures
            self.files_after(count) == (if count == before.pending().len() {
                before@
            } else {
                self@
            }),
    {
        if count == before.pending().len() {
            self.lemma_files_after_kept(before, count);
            before.lemma_files_after_all();
        } else {
            self.lemma_files_after_all();
        }
    }

    /// An image extends itself.
    pub proof fn lemma_extends_refl(&self)
        requires
            self.wf(),
        ensures
            self.extends(self),
    {
        assert(self.pending().subrange(0, self.pending().len() as int) =~= self.pending());
    }

    /// Extending is transitive.
    pub proof fn lemma_extends_trans(&self, mid: &Directory, before: &Directory)
        requires
            self.extends(mid),
            mid.extends(before),
        ensures
            self.extends(before),
    {
        let n = before.pending().len() as int;
        let m = mid.pending().len() as int;
        assert(self.pending().subrange(0, n) =~= self.pending().subrange(0, m).subrange(0, n));
    }

    /// Every file of an image is short enough for its positions to be
    /// machine numbers.
    pub proof fn lemma_file_len(&self, name: Seq<char>)
        requires
            self@.contains_key(name),
        ensures
            self@[name].len() <= usize::MAX,
    {
        let i = slot_of(self.slots@, name);
        assert(has_slot(self.slots@, name, i));
        vstd::std_specs::vec::axiom_spec_len(&self.slots@[i].data);
    }

    /// The names of the files are finite in number.
    proof fn lemma_slots_finite(slots: Seq<FileSlot>)
        ensures
            slots_map(slots).dom().finite(),
        decreases slots.len(),
    {
        if slots.len() == 0 {
            assert(slots_map(slots).dom() =~= Set::empty());
        } else {
            let rest = slots.drop_last();
            Self::lemma_slots_finite(rest);
            let name = slots.last().name@;
            assert(slots_map(slots).dom() =~= slots_map(rest).dom().insert(name)) by {
                assert forall|n: Seq<char>| slots_map(slots).dom().contains(n) implies slots_map(
                    rest,
                ).dom().insert(name).contains(n) by {
                    let i = choose|i: int| has_slot(slots, n, i);
                    if i < rest.len() {
                        assert(has_slot(rest, n, i));
                    }
                }
                assert forall|n: Seq<char>|
                    slots_map(rest).dom().insert(name).contains(n) implies slots_map(
                    slots,
                ).dom().contains(n) by {
                    if n == name {
                        assert(has_slot(slots, n, slots.len() - 1));
                    } else {
                        let i = choose|i: int| has_slot(rest, n, i);
                        assert(has_slot(slots, n, i));
                    }
                }
            }
        }
    }

    /// An image that holds no file.
    pub fn new() -> (dir: Directory)
        ensures
            dir.wf(),
            dir@ == Files::empty(),
            dir.pending() == Seq::<DiskOp>::empty(),
            dir.synced() == Files::empty(),
    {
        let dir = Directory { slots: Vec::new(), journal: Vec::new(), synced: Ghost(Map::empty()) };
        assert(dir@ =~= Files::empty());
        dir
    }

    /// The position of the file named `name`.
    fn find(&self, name: &String) -> (slot: Option<usize>)
        requires
            names_distinct(self.slots@),
        ensures
            match slot {
                Some(i) => has_slot(self.slots@, name@, i as int) && self@.contains_key(name@)
                    && self@[name@] == self.slots@[i as int].data@,
                None => !self@.contains_key(name@),
            },
    {
        let mut i: usize = 0;
        while i < self.slots.len()
            invariant
                i <= self.slots@.len(),
                names_distinct(self.slots@),
                forall|j: int| 0 <= j < i ==> !has_slot(self.slots@, name@, j),
            decreases self.slots@.len() - i,
        {
            if self.slots[i].name == *name {
                proof {
                    lemma_slot_present(self.slots@, i as int);
                }
                return Some(i);
            }
            i = i + 1;
        }
        None
    }

    /// The number of files in the image.
    pub fn len(&self) -> (n: usize)
        requires
            self.wf(),
        ensures
            self@.dom().finite(),
            n == self@.dom().len(),
    {
        proof {
            Self::lemma_slots_len(self.slots@);
        }
        self.slots.len()
    }

    /// Files with names of their own have as many names as there are files.
    proof fn lemma_slots_len(slots: Seq<FileSlot>)
        requires
            names_distinct(slots),
        ensures
            slots_map(slots).dom().finite(),
            slots_map(slots).dom().len() == slots.len(),
        decreases slots.len(),
    {
        Self::lemma_slots_finite(slots);
        if slots.len() == 0 {
            assert(slots_map(slots).dom() =~= Set::empty());
        } else {
            let rest = slots.drop_last();
            Self::lemma_slots_len(rest);
            let name = slots.last().name@;
            assert(!slots_map(rest).dom().contains(name)) by {
                if slots_map(rest).dom().contains(name) {
                    let i = choose|i: int| has_slot(rest, name, i);
                    assert(slots[i].name@ == slots[slots.len() - 1].name@);
                }
            }
            assert(slots_map(slots).dom() =~= slots_map(rest).dom().insert(name)) by {
                assert forall|n: Seq<char>| slots_map(slots).dom().contains(n) implies slots_map(
                    rest,
                ).dom().insert(name).contains(n) by {
                    let i = choose|i: int| has_slot(slots, n, i);
                    if i < rest.len() {
                        assert(has_slot(rest, n, i));
                    }
                }
                assert forall|n: Seq<char>|
                    slots_map(rest).dom().insert(name).contains(n) implies slots_map(
                    slots,
                ).dom().contains(n) by {
                    if n == name {
                        assert(has_slot(slots, n, slots.len() - 1));
                    } else {
                        let i = choose|i: int| has_slot(rest, n, i);
                        assert(has_slot(slots, n, i));
                    }
                }
            }
        }
    }

    /// Whether the image holds a file named `name`.
    pub fn contains(&self, name: &String) -> (b: bool)
        requires
            self.wf(),
        ensures
            b == self@.contains_key(name@),
    {
        self.find(name).is_some()
    }

    /// The bytes of the file named `name`.
    pub fn read(&self, name: &String) -> (data: Option<&Vec<u8>>)
        requires
            self.wf(),
        ensures
            match data {
                Some(bytes) => self@.contains_key(name@) && bytes@ == self@[name@],
                None => !self@.contains_key(name@),
            },
    {
        match self.find(name) {
            Some(i) => Some(&self.slots[i].data),
            None => None,
        }
    }

    /// The `len` bytes of the file named `name` that start at `offset`.
    pub fn read_exact_at(&self, name: &String, offset: u64, len: u64) -> (r: Result<
        Vec<u8>,
        IoErrorKind,
    >)
        requires
            self.wf(),
        ensures
            match r {
                Ok(bytes) => self@.contains_key(name@) && offset + len <= self@[name@].len()
                    && bytes@ == self@[name@].subrange(offset as int, offset + len),
                Err(e) => if self@.contains_key(name@) {
                    offset + len > self@[name@].len() && e == IoErrorKind::UnexpectedEof
                } else {
                    e == IoErrorKind::NotFound
                },
            },
    {
        match self.find(name) {
            None => Err(IoErrorKind::NotFound),
            Some(i) => {
                let data = &self.slots[i].data;
                let size = data.len() as u64;
                if offset > size || len > size - offset {
                    return Err(IoErrorKind::UnexpectedEof);
                }
                let from = offset as usize;
                let to = (offset + len) as usize;
                Ok(slice_to_vec(slice_subrange(data.as_slice(), from, to)))
            },
        }
    }

    /// Takes a file into an image that has no pending change, as one that the
    /// host already holds: no change is written down for it. A file of the
    /// same name is replaced. Returns false, and does nothing, where changes
    /// are pending.
    pub fn load(&mut self, name: String, data: Vec<u8>) -> (taken: bool)
        requires
            old(self).wf(),
        ensures
            final(self).wf(),
            taken == (old(self).pending().len() == 0),
            final(self).pending() == old(self).pending(),
            taken ==> final(self)@ == old(self)@.insert(name@, data@) && final(self).synced()
                == final(self)@,
            !taken ==> final(self)@ == old(self)@ && final(self).synced() == old(self).synced(),
    {
        if self.journal.len() != 0 {
            return false;
        }
        let ghost before = self.slots@;
        match self.find(&name) {
            Some(i) => {
                self.slots[i].data = data;
                proof {
                    let after = self.slots@;
                    assert(names_distinct(after));
                    assert(slots_map(after) =~= slots_map(before).insert(name@, data@)) by {
                        Self::lemma_updated(before, after, i as int);
                    }
                }
            },
            None => {
                self.slots.push(FileSlot { name, data });
                proof {
                    assert(self.slots@.drop_last() =~= before);
                    Self::lemma_pushed(before, self.slots@);
                }
            },
        }
        self.synced = Ghost(self@);
        true
    }

    /// Giving one file other bytes changes what is held under its name, and
    /// nothing else.
    proof fn lemma_updated(before: Seq<FileSlot>, after: Seq<FileSlot>, i: int)
        requires
            names_distinct(before),
            0 <= i < before.len(),
            after.len() == before.len(),
            after[i].name@ == before[i].name@,
            forall|j: int| 0 <= j < before.len() && j != i ==> after[j] == before[j],
        ensures
            names_distinct(after),
            slots_map(after) =~= slots_map(before).insert(before[i].name@, after[i].data@),
    {
        let name = before[i].name@;
        assert(names_distinct(after)) by {
            assert forall|x: int, y: int|
                0 <= x < after.len() && 0 <= y < after.len() && x != y implies (
            #[trigger] after[x]).name@ != (#[trigger] after[y]).name@ by {
                assert(after[x].name@ == before[x].name@);
                assert(after[y].name@ == before[y].name@);
            }
        }
        assert forall|n: Seq<char>| slots_map(after).dom().contains(n) <==> slots_map(
            before,
        ).insert(name, after[i].data@).dom().contains(n) by {
            if slots_map(after).dom().contains(n) {
                let j = choose|j: int| has_slot(after, n, j);
                assert(has_slot(before, n, j));
            }
            if slots_map(before).dom().contains(n) {
                let j = choose|j: int| has_slot(before, n, j);
                assert(has_slot(after, n, j));
            }
            if n == name {
                assert(has_slot(after, n, i));
            }
        }
        assert forall|n: Seq<char>| slots_map(after).dom().contains(n) implies slots_map(after)[n]
            == slots_map(before).insert(name, after[i].data@)[n] by {
            let j = choose|j: int| has_slot(after, n, j);
            lemma_slot_present(after, j);
            assert(has_slot(before, n, j));
            lemma_slot_present(before, j);
        }
    }

    /// One more file, with a name that no file has, is one more name.
    proof fn lemma_pushed(before: Seq<FileSlot>, after: Seq<FileSlot>)
        requires
            names_distinct(before),
            after.len() == before.len() + 1,
            after.drop_last() == before,
            !slots_map(before).contains_key(after.last().name@),
        ensures
            names_distinct(after),
            slots_map(after) =~= slots_map(before).insert(after.last().name@, after.last().data@),
    {
        let name = after.last().name@;
        let last = after.len() - 1;
        assert(forall|j: int| 0 <= j < before.len() ==> after[j] == before[j]) by {
            assert forall|j: int| 0 <= j < before.len() implies after[j] == before[j] by {
                assert(after.drop_last()[j] == after[j]);
            }
        }
        assert(names_distinct(after)) by {
            assert forall|x: int, y: int|
                0 <= x < after.len() && 0 <= y < after.len() && x != y implies (
            #[trigger] after[x]).name@ != (#[trigger] after[y]).name@ by {
                if x == last {
                    assert(!has_slot(before, name, y));
                } else if y == last {
                    assert(!has_slot(before, name, x));
                } else {
                    assert(before[x].name@ != before[y].name@);
                }
            }
        }
        assert forall|n: Seq<char>| slots_map(after).dom().contains(n) <==> slots_map(
            before,
        ).insert(name, after.last().data@).dom().contains(n) by {
            if slots_map(after).dom().contains(n) {
                let j = choose|j: int| has_slot(after, n, j);
                if j < last {
                    assert(has_slot(before, n, j));
                }
            }
            if slots_map(before).dom().contains(n) {
                let j = choose|j: int| has_slot(before, n, j);
                assert(has_slot(after, n, j));
            }
            if n == name {
                assert(has_slot(after, n, last));
            }
        }
        assert forall|n: Seq<char>| slots_map(after).dom().contains(n) implies slots_map(after)[n]
            == slots_map(before).insert(name, after.last().data@)[n] by {
            let j = choose|j: int| has_slot(after, n, j);
            lemma_slot_present(after, j);
            if j < last {
                assert(has_slot(before, n, j));
                lemma_slot_present(before, j);
            }
        }
    }

    /// Taking a file away takes its name away, and nothing else.
    proof fn lemma_removed(before: Seq<FileSlot>, after: Seq<FileSlot>, i: int)
        requires
            names_distinct(before),
            0 <= i < before.len(),
            after == before.remove(i),
        ensures
            names_distinct(after),
            slots_map(after) =~= slots_map(before).remove(before[i].name@),
    {
        let name = before[i].name@;
        assert(names_distinct(after)) by {
            assert forall|x: int, y: int|
                0 <= x < after.len() && 0 <= y < after.len() && x != y implies (
            #[trigger] after[x]).name@ != (#[trigger] after[y]).name@ by {
                let bx = if x < i { x } else { x + 1 };
                let by = if y < i { y } else { y + 1 };
                assert(after[x] == before[bx]);
                assert(after[y] == before[by]);
            }
        }
        assert forall|n: Seq<char>| slots_map(after).dom().contains(n) <==> slots_map(
            before,
        ).remove(name).dom().contains(n) by {
            if slots_map(after).dom().contains(n) {
                let j = choose|j: int| has_slot(after, n, j);
                let bj = if j < i { j } else { j + 1 };
                assert(after[j] == before[bj]);
                assert(has_slot(before, n, bj));
                assert(before[bj].name@ != before[i].name@);
            }
            if slots_map(before).dom().contains(n) && n != name {
                let j = choose|j: int| has_slot(before, n, j);
                let aj = if j < i { j } else { j - 1 };
                assert(after[aj] == before[j]);
                assert(has_slot(after, n, aj));
            }
        }
        assert forall|n: Seq<char>| slots_map(after).dom().contains(n) implies slots_map(after)[n]
            == slots_map(before).remove(name)[n] by {
            let j = choose|j: int| has_slot(after, n, j);
            let bj = if j < i { j } else { j + 1 };
            assert(after[j] == before[bj]);
            lemma_slot_present(after, j);
            lemma_slot_present(before, bj);
        }
    }

    /// The change that was written down last is applied last.
    proof fn lemma_journal_pushed(synced: Files, before: Seq<DiskOp>, after: Seq<DiskOp>)
        requires
            after.len() == before.len() + 1,
            after.drop_last() == before,
        ensures
            apply_ops(synced, after) == after.last().apply(apply_ops(synced, before)),
    {
    }

    /// Creates the empty file `name`, unless a file of that name is there.
    pub fn create_new(&mut self, name: String) -> (r: Result<(), IoErrorKind>)
        requires
            old(self).wf(),
        ensures
            final(self).wf(),
            final(self).extends(old(self)),
            match r {
                Ok(()) => !old(self)@.contains_key(name@) && final(self)@ == old(self)@.insert(
                    name@,
                    Seq::empty(),
                ) && final(self).pending().len() == old(self).pending().len() + 1
                    && final(self).pending().drop_last() == old(self).pending()
                    && final(self).pending().last() == (DiskOp::Create { name }),
                Err(e) => old(self)@.contains_key(name@) && e == IoErrorKind::AlreadyExists
                    && final(self)@ == old(self)@ && final(self).pending() == old(self).pending(),
            },
    {
        proof {
            self.lemma_extends_refl();
        }
        match self.find(&name) {
            Some(_) => Err(IoErrorKind::AlreadyExists),
            None => {
                let ghost before = self.slots@;
                let ghost journal = self.journal@;
                self.slots.push(FileSlot { name: name.clone(), data: Vec::new() });
                self.journal.push(DiskOp::Create { name });
                proof {
                    assert(self.slots@.drop_last() =~= before);
                    Self::lemma_pushed(before, self.slots@);
                    assert(self.journal@.drop_last() =~= journal);
                    assert(self.journal@.subrange(0, journal.len() as int) =~= journal);
                    Self::lemma_journal_pushed(self.synced@, journal, self.journal@);
                }
                Ok(())
            },
        }
    }

    /// Adds `bytes` at the end of the file `name`. Returns the length that
    /// the file had before.
    pub fn append(&mut self, name: &String, bytes: &[u8]) -> (r: Result<usize, IoErrorKind>)
        requires
            old(self).wf(),
        ensures
            final(self).wf(),
            final(self).extends(old(self)),
            match r {
                Ok(offset) => old(self)@.contains_key(name@) && offset == old(self)@[name@].len()
                    && final(self)@ == old(self)@.insert(name@, old(self)@[name@] + bytes@)
                    && final(self).pending().len() == old(self).pending().len() + 1
                    && final(self).pending().drop_last() == old(self).pending()
                    && final(self).pending().last() == (DiskOp::Append {
                    name: *name,
                    bytes: final(self).pending().last()->Append_bytes,
                }) && final(self).pending().last()->Append_bytes@ == bytes@,
                Err(e) => !old(self)@.contains_key(name@) && e == IoErrorKind::NotFound
                    && final(self)@ == old(self)@ && final(self).pending() == old(self).pending(),
            },
    {
        proof {
            self.lemma_extends_refl();
        }
        match self.find(name) {
            None => Err(IoErrorKind::NotFound),
            Some(i) => {
                let ghost before = self.slots@;
                let ghost journal = self.journal@;
                let offset = self.slots[i].data.len();
                let mut added = slice_to_vec(bytes);
                self.slots[i].data.append(&mut added);
                let copy = slice_to_vec(bytes);
                self.journal.push(DiskOp::Append { name: name.clone(), bytes: copy });
                proof {
                    Self::lemma_updated(before, self.slots@, i as int);
                    assert(self.journal@.drop_last() =~= journal);
                    assert(self.journal@.subrange(0, journal.len() as int) =~= journal);
                    Self::lemma_journal_pushed(self.synced@, journal, self.journal@);
                }
                Ok(offset)
            },
        }
    }

    /// Makes the file `name` hold `bytes` and nothing else, whether it was
    /// there or not.
    pub fn write(&mut self, name: String, bytes: Vec<u8>)
        requires
            old(self).wf(),
        ensures
            final(self).wf(),
            final(self).extends(old(self)),
            final(self)@ == old(self)@.insert(name@, bytes@),
            final(self).pending().len() == old(self).pending().len() + 1,
            final(self).pending().drop_last() == old(self).pending(),
            final(self).pending().last()->Write_name@ == name@,
            final(self).pending().last()->Write_bytes@ == bytes@,
            final(self).pending().last() is Write,
    {
        let ghost before = self.slots@;
        let ghost journal = self.journal@;
        let copy = bytes.clone();
        assert(copy@ =~= bytes@);
        match self.find(&name) {
            Some(i) => {
                self.slots[i].data = copy;
                proof {
                    Self::lemma_updated(before, self.slots@, i as int);
                }
            },
            None => {
                self.slots.push(FileSlot { name: name.clone(), data: copy });
                proof {
                    assert(self.slots@.drop_last() =~= before);
                    Self::lemma_pushed(before, self.slots@);
                }
            },
        }
        self.journal.push(DiskOp::Write { name, bytes });
        proof {
            assert(self.journal@.drop_last() =~= journal);
            assert(self.journal@.subrange(0, journal.len() as int) =~= journal);
            Self::lemma_journal_pushed(self.synced@, journal, self.journal@);
        }
    }

    /// Deletes the file `name`.
    pub fn remove(&mut self, name: &String) -> (r: Result<(), IoErrorKind>)
        requires
            old(self).wf(),
        ensures
            final(self).wf(),
            final(self).extends(old(self)),
            match r {
                Ok(()) => old(self)@.contains_key(name@) && final(self)@ == old(self)@.remove(
                    name@,
                ) && final(self).pending().len() == old(self).pending().len() + 1
                    && final(self).pending().drop_last() == old(self).pending()
                    && final(self).pending().last() == (DiskOp::Remove { name: *name }),
                Err(e) => !old(self)@.contains_key(name@) && e == IoErrorKind::NotFound
                    && final(self)@ == old(self)@ && final(self).pending() == old(self).pending(),
            },
    {
        proof {
            self.lemma_extends_refl();
        }
        match self.find(name) {
            None => Err(IoErrorKind::NotFound),
            Some(i) => {
                let ghost before = self.slots@;
                let ghost journal = self.journal@;
                let _ = self.slots.remove(i);
                self.journal.push(DiskOp::Remove { name: name.clone() });
                proof {
                    Self::lemma_removed(before, self.slots@, i as int);
                    assert(self.journal@.drop_last() =~= journal);
                    assert(self.journal@.subrange(0, journal.len() as int) =~= journal);
                    Self::lemma_journal_pushed(self.synced@, journal, self.journal@);
                }
                Ok(())
            },
        }
    }

    /// Hands out the changes that were made to the image since this was last
    /// called, first to last. Applied to the files as they were then, they
    /// give the files as the image holds them now.
    pub fn take_journal(&mut self) -> (ops: Vec<DiskOp>)
        requires
            old(self).wf(),
        ensures
            final(self).wf(),
            ops@ == old(self).pending(),
            apply_ops(old(self).synced(), ops@) == old(self)@,
            final(self)@ == old(self)@,
            final(self).synced() == old(self)@,
            final(self).pending() == Seq::<DiskOp>::empty(),
    {
        let mut ops: Vec<DiskOp> = Vec::new();
        std::mem::swap(&mut ops, &mut self.journal);
        self.synced = Ghost(self@);
        ops
    }
}

} // verus!
