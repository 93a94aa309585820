//! What a host can open after it carried over some of the changes that were
//! made to a directory, and no more.

use crate::directory::{Directory, Files};
use crate::meta::{meta_encodable, parse_meta, LogMetaView};
use crate::names::meta_file_name;
use crate::partition::LogPartition;
use crate::records::{lemma_parts_frame, lemma_parts_ids, meta_of, same_ids, LogView};
use vstd::prelude::*;

verus! {

/// Whether no two of the partitions `parts` share an identifier.
pub open spec fn all_distinct(parts: Seq<LogPartition>) -> bool {
    forall|i: int, j: int|
        0 <= i < j < parts.len() ==> (#[trigger] parts[i]).file_id != (#[trigger] parts[j]).file_id
}

/// Whether the file of each of the partitions `parts` is among `files`.
pub open spec fn all_among(parts: Seq<LogPartition>, files: Files) -> bool {
    forall|i: int| 0 <= i < parts.len() ==> files.contains_key((#[trigger] parts[i]).name())
}

/// Whether no two of the partitions that `meta` lists share an identifier.
pub open spec fn distinct_ids(meta: LogMetaView) -> bool {
    all_distinct(meta.hist.push(meta.active))
}

/// Whether the file of each partition that `meta` lists is among `files`.
pub open spec fn files_present(meta: LogMetaView, files: Files) -> bool {
    all_among(meta.hist.push(meta.active), files)
}

/// The log that the metadata file among `files` describes.
pub open spec fn log_of(files: Files) -> LogView {
    let meta = parse_meta(files[meta_file_name()]).unwrap();
    LogView { dirname: meta.dirname, active: meta.active, hist: meta.hist, files }
}

/// Whether a log can be opened from `files`: the metadata file is there
/// and reads, the partitions it lists have identifiers of their own and
/// their files are there, and the name of the directory that it gives can
/// be written again.
pub open spec fn opens(files: Files) -> bool {
    &&& files.contains_key(meta_file_name())
    &&& parse_meta(files[meta_file_name()]) matches Some(meta) && distinct_ids(meta)
        && files_present(meta, files) && meta_encodable(meta)
}

/// Whether a log can be opened from `files` and then says what `log` says,
/// and reads to its end where `log` does.
pub open spec fn tells(files: Files, log: LogView) -> bool {
    &&& opens(files)
    &&& log_of(files).records() == log.records()
    &&& log_of(files).clean() == log.clean()
}

/// Whether `a` and `b` say the same.
pub open spec fn says_same(a: LogView, b: LogView) -> bool {
    a.records() == b.records() && a.clean() == b.clean()
}

/// Whether `f` and `g` hold the same under `name`: the same bytes, or
/// nothing.
pub open spec fn same_at(f: Files, g: Files, name: Seq<char>) -> bool {
    f.contains_key(name) == g.contains_key(name) && (f.contains_key(name) ==> f[name] == g[name])
}

/// Whether every state that the directory went through from `before` to
/// `after`, change by change, holds under each name that is not among
/// `names` what `before` holds.
pub open spec fn touches_only(
    before: &Directory,
    after: &Directory,
    names: Set<Seq<char>>,
) -> bool {
    forall|count: int, name: Seq<char>|
        before.pending().len() <= count <= after.pending().len() && !names.contains(name)
            ==> #[trigger] same_at(after.files_after(count), before@, name)
}

/// Whether every state that the directory went through from `before` to
/// `after`, change by change, is one from which a log opens that says what
/// `was` says or what `is` says: whenever the changes stop being carried
/// over, nothing but the change that was under way is lost.
pub open spec fn crash_safe(
    before: &Directory,
    after: &Directory,
    was: LogView,
    is: LogView,
) -> bool {
    forall|count: int|
        before.pending().len() <= count <= after.pending().len() ==> tells(
            #[trigger] after.files_after(count),
            was,
        ) || tells(after.files_after(count), is)
}

/// What a log says can be opened from every directory that holds the
/// metadata file of the log and the files of its partitions as the log has
/// them, whatever else it holds.
pub proof fn lemma_tells_beside(log: LogView, files: Files)
    requires
        log.wf(),
        log.described(),
        meta_encodable(meta_of(log)),
        same_at(files, log.files, meta_file_name()),
        forall|i: int|
            0 <= i < log.parts().len() ==> same_at(
                files,
                log.files,
                (#[trigger] log.parts()[i]).name(),
            ),
    ensures
        tells(files, log),
{
    let meta = parse_meta(files[meta_file_name()]).unwrap();
    let listed = meta.hist.push(meta.active);
    let parts = log.parts();
    assert(same_ids(listed, parts));
    assert forall|i: int, j: int| 0 <= i < j < listed.len() implies (#[trigger] listed[i]).file_id
        != (#[trigger] listed[j]).file_id by {
        assert(listed[i].file_id == parts[i].file_id);
        assert(listed[j].file_id == parts[j].file_id);
    }
    assert forall|i: int| 0 <= i < listed.len() implies files.contains_key(
        (#[trigger] listed[i]).name(),
    ) by {
        assert(listed[i].file_id == parts[i].file_id);
        assert(log.files.contains_key(parts[i].name()));
        assert(same_at(files, log.files, parts[i].name()));
    }
    assert(log_of(files).parts() == listed);
    lemma_parts_ids(files, listed, parts);
    assert forall|i: int| 0 <= i < parts.len() implies files[(#[trigger] parts[i]).name()]
        == log.files[parts[i].name()] by {
        assert(log.files.contains_key(parts[i].name()));
        assert(same_at(files, log.files, parts[i].name()));
    }
    lemma_parts_frame(files, log.files, parts);
}

/// What a log says can be opened from its own directory.
pub proof fn lemma_tells_itself(log: LogView)
    requires
        log.wf(),
        log.described(),
        meta_encodable(meta_of(log)),
    ensures
        tells(log.files, log),
{
    lemma_tells_beside(log, log.files);
}

/// Changes that are made one after the other touch what the first touch and
/// what the second touch, and nothing else.
pub proof fn lemma_touches_join(
    first: &Directory,
    mid: &Directory,
    last: &Directory,
    a: Set<Seq<char>>,
    b: Set<Seq<char>>,
)
    requires
        mid.wf(),
        mid.extends(first),
        last.extends(mid),
        touches_only(first, mid, a),
        touches_only(mid, last, b),
    ensures
        touches_only(first, last, a.union(b)),
{
    assert forall|count: int, name: Seq<char>|
        first.pending().len() <= count <= last.pending().len() && !a.union(b).contains(
            name,
        ) implies #[trigger] same_at(last.files_after(count), first@, name) by {
        let n = mid.pending().len() as int;
        mid.lemma_files_after_all();
        assert(same_at(mid.files_after(n), first@, name));
        if count <= n {
            last.lemma_files_after_kept(mid, count);
            assert(same_at(mid.files_after(count), first@, name));
        } else {
            assert(same_at(last.files_after(count), mid@, name));
        }
    }
}

/// No change, or one change to the file `name`, touches `name` only.
pub proof fn lemma_touches_one(before: &Directory, after: &Directory, name: Seq<char>)
    requires
        before.wf(),
        after.extends(before),
        after.pending().len() <= before.pending().len() + 1,
        forall|other: Seq<char>| other != name ==> #[trigger] same_at(after@, before@, other),
    ensures
        touches_only(before, after, set![name]),
{
    assert forall|count: int, other: Seq<char>|
        before.pending().len() <= count <= after.pending().len() && !set![name].contains(
            other,
        ) implies #[trigger] same_at(after.files_after(count), before@, other) by {
        after.lemma_one_step(before, count);
        assert(same_at(after@, before@, other));
    }
}

/// Changes that are made one after the other are safe where each of them
/// is, and the log between them says what the log before or the log after
/// says.
pub proof fn lemma_safe_join(
    first: &Directory,
    mid: &Directory,
    last: &Directory,
    was: LogView,
    between: LogView,
    is: LogView,
)
    requires
        mid.extends(first),
        last.extends(mid),
        crash_safe(first, mid, was, between),
        crash_safe(mid, last, between, is),
        says_same(between, was) || says_same(between, is),
    ensures
        crash_safe(first, last, was, is),
{
    assert forall|count: int| first.pending().len() <= count <= last.pending().len() implies tells(
        #[trigger] last.files_after(count),
        was,
    ) || tells(last.files_after(count), is) by {
        let n = mid.pending().len() as int;
        if count <= n {
            last.lemma_files_after_kept(mid, count);
            assert(tells(mid.files_after(count), was) || tells(mid.files_after(count), between));
        } else {
            assert(tells(last.files_after(count), between) || tells(last.files_after(count), is));
        }
    }
}

/// Changes are safe between two logs where they are safe between logs that
/// say the same as these.
pub proof fn lemma_safe_same(
    before: &Directory,
    after: &Directory,
    was: LogView,
    is: LogView,
    was_too: LogView,
    is_too: LogView,
)
    requires
        crash_safe(before, after, was, is),
        says_same(was, was_too) || says_same(was, is_too),
        says_same(is, was_too) || says_same(is, is_too),
    ensures
        crash_safe(before, after, was_too, is_too),
{
    assert forall|count: int|
        before.pending().len() <= count <= after.pending().len() implies tells(
        #[trigger] after.files_after(count),
        was_too,
    ) || tells(after.files_after(count), is_too) by {
        assert(tells(after.files_after(count), was) || tells(after.files_after(count), is));
    }
}

/// Whether every state that the directory went through from `before` to
/// `after`, change by change, holds under each name of `kept` what `kept`
/// holds.
pub open spec fn keeps(before: &Directory, after: &Directory, kept: Files) -> bool {
    forall|count: int, name: Seq<char>|
        before.pending().len() <= count <= after.pending().len() && kept.contains_key(name)
            ==> #[trigger] same_at(after.files_after(count), kept, name)
}

/// Files that were kept so far are kept through changes that touch none of
/// them.
pub proof fn lemma_keeps_on(
    first: &Directory,
    mid: &Directory,
    last: &Directory,
    kept: Files,
    touched: Set<Seq<char>>,
)
    requires
        mid.wf(),
        mid.extends(first),
        last.extends(mid),
        keeps(first, mid, kept),
        touches_only(mid, last, touched),
        forall|name: Seq<char>| #[trigger] kept.contains_key(name) ==> !touched.contains(name),
    ensures
        keeps(first, last, kept),
{
    assert forall|count: int, name: Seq<char>|
        first.pending().len() <= count <= last.pending().len() && kept.contains_key(
            name,
        ) implies #[trigger] same_at(last.files_after(count), kept, name) by {
        let n = mid.pending().len() as int;
        mid.lemma_files_after_all();
        assert(same_at(mid.files_after(n), kept, name));
        if count <= n {
            last.lemma_files_after_kept(mid, count);
            assert(same_at(mid.files_after(count), kept, name));
        } else {
            assert(same_at(last.files_after(count), mid@, name));
        }
    }
}

/// An image that holds what `kept` holds keeps it while nothing is changed.
pub proof fn lemma_keeps_start(dir: &Directory, kept: Files)
    requires
        dir.wf(),
        forall|name: Seq<char>| #[trigger] kept.contains_key(name) ==> same_at(dir@, kept, name),
    ensures
        keeps(dir, dir, kept),
{
    assert forall|count: int, name: Seq<char>|
        dir.pending().len() <= count <= dir.pending().len() && kept.contains_key(
            name,
        ) implies #[trigger] same_at(dir.files_after(count), kept, name) by {
        dir.lemma_files_after_all();
    }
}

/// Changes that keep the files of a log are safe: from every state the log
/// opens as it was.
pub proof fn lemma_safe_kept(before: &Directory, after: &Directory, log: LogView)
    requires
        log.wf(),
        log.described(),
        meta_encodable(meta_of(log)),
        keeps(before, after, log.files),
    ensures
        crash_safe(before, after, log, log),
{
    assert forall|count: int|
        before.pending().len() <= count <= after.pending().len() implies tells(
        #[trigger] after.files_after(count),
        log,
    ) by {
        let files = after.files_after(count);
        assert(same_at(files, log.files, meta_file_name()));
        assert forall|i: int| 0 <= i < log.parts().len() implies same_at(
            files,
            log.files,
            (#[trigger] log.parts()[i]).name(),
        ) by {
            assert(log.files.contains_key(log.parts()[i].name()));
        }
        lemma_tells_beside(log, files);
    }
}

/// No change, or one change, is safe where the log opens before it and
/// after it.
pub proof fn lemma_safe_step(before: &Directory, after: &Directory, was: LogView, is: LogView)
    requires
        before.wf(),
        after.extends(before),
        after.pending().len() <= before.pending().len() + 1,
        tells(before@, was),
        tells(after@, was) || tells(after@, is),
    ensures
        crash_safe(before, after, was, is),
{
    assert forall|count: int|
        before.pending().len() <= count <= after.pending().len() implies tells(
        #[trigger] after.files_after(count),
        was,
    ) || tells(after.files_after(count), is) by {
        after.lemma_one_step(before, count);
    }
}

/// Where changes are safe, the log opens after them as it was or as it is.
pub proof fn lemma_safe_end(before: &Directory, after: &Directory, was: LogView, is: LogView)
    requires
        after.wf(),
        after.extends(before),
        crash_safe(before, after, was, is),
    ensures
        tells(after@, was) || tells(after@, is),
{
    after.lemma_files_after_all();
    let n = after.pending().len() as int;
    assert(tells(after.files_after(n), was) || tells(after.files_after(n), is));
}

/// Files that are kept through changes, and through the changes after
/// them, are kept through all of them.
pub proof fn lemma_keeps_join(first: &Directory, mid: &Directory, last: &Directory, kept: Files)
    requires
        mid.extends(first),
        last.extends(mid),
        keeps(first, mid, kept),
        keeps(mid, last, kept),
    ensures
        keeps(first, last, kept),
{
    assert forall|count: int, name: Seq<char>|
        first.pending().len() <= count <= last.pending().len() && kept.contains_key(
            name,
        ) implies #[trigger] same_at(last.files_after(count), kept, name) by {
        let n = mid.pending().len() as int;
        if count <= n {
            last.lemma_files_after_kept(mid, count);
            assert(same_at(mid.files_after(count), kept, name));
        }
    }
}

/// Changes that touch neither the metadata file of a log nor the files of
/// its partitions are safe: from every state the log opens as it was.
pub proof fn lemma_safe_untouched(
    before: &Directory,
    after: &Directory,
    log: LogView,
    touched: Set<Seq<char>>,
)
    requires
        log.wf(),
        log.described(),
        meta_encodable(meta_of(log)),
        before@ == log.files,
        touches_only(before, after, touched),
        !touched.contains(meta_file_name()),
        forall|i: int|
            0 <= i < log.parts().len() ==> !touched.contains((#[trigger] log.parts()[i]).name()),
    ensures
        crash_safe(before, after, log, log),
{
    assert forall|count: int|
        before.pending().len() <= count <= after.pending().len() implies tells(
        #[trigger] after.files_after(count),
        log,
    ) by {
        let files = after.files_after(count);
        assert(same_at(files, before@, meta_file_name()));
        assert forall|i: int| 0 <= i < log.parts().len() implies same_at(
            files,
            log.files,
            (#[trigger] log.parts()[i]).name(),
        ) by {
            assert(same_at(files, before@, log.parts()[i].name()));
        }
        lemma_tells_beside(log, files);
    }
}

} // verus!
