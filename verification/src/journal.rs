//! The calls of a removal, and what a series of calls amounts to.
//!
//! An event is one call to a capability together with its answer. A trail is
//! the series of events of one operation, oldest first. The functions here
//! read a trail as the run of an operation: they give `None` for a trail that
//! is no run of it, and otherwise the one result that the run has.

use crate::context::links_dir_of;
use crate::criteria::selected;
use crate::error::Error;
use crate::link::{decoded, is_link_path, paths_of, StoredLinkView};
use crate::message::ModeView;
use vstd::prelude::*;

verus! {

/// One call to a capability, with its answer.
#[allow(inconsistent_fields)]
pub ghost enum Event {
    /// The file system was asked whether `path` exists.
    Exists { path: Seq<char>, found: bool },
    /// The file system was asked for the entries of the directory `path`.
    ReadDir { path: Seq<char>, outcome: Result<Seq<Seq<char>>, Error> },
    /// The file system was asked for the text of the file `path`.
    ReadToString { path: Seq<char>, outcome: Result<Seq<char>, Error> },
    /// The storage was asked to stage the removal of `path`.
    Remove { working_dir: Seq<char>, path: Seq<char>, outcome: Result<(), Error> },
    /// The storage was asked to commit under `message`.
    Commit { working_dir: Seq<char>, message: Seq<char>, outcome: Result<(), Error> },
}

impl Event {
    /// Whether the event is a call to the file system.
    pub open spec fn is_read(self) -> bool {
        self is Exists || self is ReadDir || self is ReadToString
    }

    /// Whether the event is a call to the versioned storage.
    pub open spec fn is_write(self) -> bool {
        self is Remove || self is Commit
    }
}

/// The answer to a read of a file, as a mathematical value.
pub open spec fn answer_of(r: Result<String, Error>) -> Result<Seq<char>, Error> {
    match r {
        Ok(text) => Ok(text@),
        Err(e) => Err(e),
    }
}

/// What the answer `outcome` to a read of the link file `path` yields: the
/// record of the link that the text holds, or the error of the read, or
/// `MalformedLink` for a text that holds no link.
pub open spec fn record_read(path: Seq<char>, outcome: Result<Seq<char>, Error>) -> Result<
    StoredLinkView,
    Error,
> {
    match outcome {
        Err(e) => Err(e),
        Ok(text) => match decoded(text) {
            None => Err(Error::MalformedLink),
            Some(link) => Ok(StoredLinkView { link, path }),
        },
    }
}

/// Reads `reads` as the scan of `entries`.
///
/// The scan takes the entries in order. It passes over an entry that is no
/// link file, and reads and decodes each link file. It ends with the first
/// read or decode that fails, and has that error; otherwise it has the
/// records of all link files among the entries, in order.
pub open spec fn scanned(entries: Seq<Seq<char>>, reads: Seq<Event>) -> Option<
    Result<Seq<StoredLinkView>, Error>,
>
    decreases entries.len(),
{
    if entries.len() == 0 {
        if reads.len() == 0 {
            Some(Ok(Seq::empty()))
        } else {
            None
        }
    } else {
        let earlier = entries.drop_last();
        let path = entries.last();
        match scanned(earlier, reads) {
            Some(Err(e)) => Some(Err(e)),
            before => if !is_link_path(path) {
                before
            } else if reads.len() == 0 {
                None
            } else {
                match (reads.last(), scanned(earlier, reads.drop_last())) {
                    (Event::ReadToString { path: read, outcome }, Some(Ok(records))) => if read
                        != path {
                        None
                    } else {
                        match record_read(path, outcome) {
                            Err(e) => Some(Err(e)),
                            Ok(record) => Some(Ok(records.push(record))),
                        }
                    },
                    _ => None,
                }
            },
        }
    }
}

/// Reads `reads` as the listing of the store directory `dir`.
///
/// The listing asks whether `dir` exists. If it does not, the store is empty
/// and nothing more is asked. Otherwise it asks for the entries of `dir`,
/// fails if that fails, and scans the entries.
pub open spec fn listed(dir: Seq<char>, reads: Seq<Event>) -> Option<
    Result<Seq<StoredLinkView>, Error>,
> {
    if reads.len() == 0 {
        None
    } else {
        match reads[0] {
            Event::Exists { path, found } => if path != dir {
                None
            } else if !found {
                if reads.len() == 1 {
                    Some(Ok(Seq::empty()))
                } else {
                    None
                }
            } else if reads.len() == 1 {
                None
            } else {
                match reads[1] {
                    Event::ReadDir { path: listed_path, outcome } => if listed_path != dir {
                        None
                    } else {
                        match outcome {
                            Err(e) => if reads.len() == 2 {
                                Some(Err(e))
                            } else {
                                None
                            },
                            Ok(entries) => scanned(entries, reads.skip(2)),
                        }
                    },
                    _ => None,
                }
            },
            _ => None,
        }
    }
}

/// Reads `writes` as the staging of the removal of `paths` in the repository
/// at `working_dir`.
///
/// The staging takes the paths in order and ends with the first call that
/// fails, with that error.
pub open spec fn staged(working_dir: Seq<char>, paths: Seq<Seq<char>>, writes: Seq<Event>) -> Option<
    Result<(), Error>,
>
    decreases paths.len(),
{
    if paths.len() == 0 {
        if writes.len() == 0 {
            Some(Ok(()))
        } else {
            None
        }
    } else {
        let earlier = paths.drop_last();
        match staged(working_dir, earlier, writes) {
            Some(Err(e)) => Some(Err(e)),
            _ => if writes.len() == 0 {
                None
            } else {
                match (writes.last(), staged(working_dir, earlier, writes.drop_last())) {
                    (Event::Remove { working_dir: root, path, outcome }, Some(Ok(_))) => if root
                        == working_dir && path == paths.last() {
                        Some(outcome)
                    } else {
                        None
                    },
                    _ => None,
                }
            },
        }
    }
}

/// Reads `writes` as the removal of `paths` under `message`.
///
/// The removal stages every path. If a staging fails, it ends there, with no
/// commit. Otherwise it commits once, under `message`, and has the outcome of
/// that commit.
pub open spec fn removed(
    working_dir: Seq<char>,
    paths: Seq<Seq<char>>,
    message: Seq<char>,
    writes: Seq<Event>,
) -> Option<Result<(), Error>> {
    match staged(working_dir, paths, writes) {
        Some(Err(e)) => Some(Err(e)),
        _ => if writes.len() == 0 {
            None
        } else {
            match (writes.last(), staged(working_dir, paths, writes.drop_last())) {
                (Event::Commit { working_dir: root, message: sent, outcome }, Some(Ok(_))) => if root
                    == working_dir && sent == message {
                    Some(outcome)
                } else {
                    None
                },
                _ => None,
            }
        },
    }
}

/// The number of events before the first call to the versioned storage.
pub open spec fn reading_len(trail: Seq<Event>) -> nat
    decreases trail.len(),
{
    if trail.len() == 0 {
        0
    } else {
        let before = reading_len(trail.drop_last());
        if before == trail.len() - 1 && trail.last().is_read() {
            before + 1
        } else {
            before
        }
    }
}

/// Reads the calls of `trail` that come before its first write as the
/// listing of the store of the repository at `working_dir`.
pub open spec fn listing(trail: Seq<Event>, working_dir: Seq<char>) -> Option<
    Result<Seq<StoredLinkView>, Error>,
> {
    listed(links_dir_of(working_dir), trail.take(reading_len(trail) as int))
}

/// Reads `trail` as a removal transaction in the repository at `working_dir`.
///
/// All reads come before all writes. The reads are the listing of the store.
/// If the listing fails, so does the transaction, and nothing is written. If
/// no record is selected, the result is zero, and nothing is written.
/// Otherwise the writes are the removal of the selected records' paths, in
/// the order of the listing, under the message of the mode; the result is the
/// number of selected records, or the error of the removal.
pub open spec fn transaction(
    trail: Seq<Event>,
    working_dir: Seq<char>,
    mode: ModeView,
    link_type: Option<Seq<char>>,
) -> Option<Result<nat, Error>> {
    let k = reading_len(trail) as int;
    match listing(trail, working_dir) {
        None => None,
        Some(Err(e)) => if k == trail.len() {
            Some(Err(e))
        } else {
            None
        },
        Some(Ok(records)) => {
            let chosen = selected(records, mode.criteria(link_type));
            if chosen.len() == 0 {
                if k == trail.len() {
                    Some(Ok(0))
                } else {
                    None
                }
            } else {
                match removed(
                    working_dir,
                    paths_of(chosen),
                    mode.message(chosen.len()),
                    trail.skip(k),
                ) {
                    None => None,
                    Some(Err(e)) => Some(Err(e)),
                    Some(Ok(_)) => Some(Ok(chosen.len())),
                }
            }
        },
    }
}

/// A scan makes no call but reads of files.
pub proof fn lemma_scanned_reads(entries: Seq<Seq<char>>, reads: Seq<Event>)
    requires
        scanned(entries, reads) is Some,
    ensures
        forall|i: int| 0 <= i < reads.len() ==> reads[i] is ReadToString,
    decreases entries.len(),
{
    if entries.len() > 0 {
        let earlier = entries.drop_last();
        if scanned(earlier, reads) is Some {
            lemma_scanned_reads(earlier, reads);
        } else {
            let before = reads.drop_last();
            lemma_scanned_reads(earlier, before);
            assert forall|i: int| 0 <= i < reads.len() implies reads[i] is ReadToString by {
                if i < reads.len() - 1 {
                    assert(reads[i] == before[i]);
                }
            }
        }
    }
}

/// The link files among `entries`, in order.
pub open spec fn link_files(entries: Seq<Seq<char>>) -> Seq<Seq<char>> {
    entries.filter(|path: Seq<char>| is_link_path(path))
}

/// A scan reads the link files among the entries, in order, as far as it
/// gets: all of them if it succeeds, at least one if it fails. The records of
/// a scan that succeeds have the paths of the link files.
pub proof fn lemma_scanned_shape(entries: Seq<Seq<char>>, reads: Seq<Event>)
    requires
        scanned(entries, reads) is Some,
    ensures
        reads.len() <= link_files(entries).len(),
        scanned(entries, reads) matches Some(Err(_)) ==> reads.len() >= 1,
        scanned(entries, reads) matches Some(Ok(records)) ==> reads.len() == link_files(
            entries,
        ).len() && paths_of(records) == link_files(entries),
        forall|i: int|
            0 <= i < reads.len() ==> (#[trigger] reads[i] matches Event::ReadToString {
                path,
                outcome,
            } && path == link_files(entries)[i]),
    decreases entries.len(),
{
    let is_link = |path: Seq<char>| is_link_path(path);
    if entries.len() == 0 {
        assert(link_files(entries) =~= Seq::<Seq<char>>::empty()) by {
            entries.lemma_filter_len(is_link);
        }
        assert(paths_of(Seq::<StoredLinkView>::empty()) =~= Seq::<Seq<char>>::empty());
    } else {
        let earlier = entries.drop_last();
        let path = entries.last();
        assert(earlier.push(path) =~= entries);
        earlier.lemma_filter_push(path, is_link);
        if scanned(earlier, reads) matches Some(Err(_)) {
            lemma_scanned_shape(earlier, reads);
        } else if !is_link_path(path) {
            lemma_scanned_shape(earlier, reads);
        } else {
            let before = reads.drop_last();
            lemma_scanned_shape(earlier, before);
            if scanned(earlier, reads) is Some {
                lemma_scanned_shape(earlier, reads);
            }
            let records = scanned(earlier, before)->Some_0->Ok_0;
            assert forall|i: int| 0 <= i < reads.len() implies (#[trigger] reads[i] matches Event::ReadToString {
                path,
                outcome,
            } && path == link_files(entries)[i]) by {
                if i < reads.len() - 1 {
                    assert(reads[i] == before[i]);
                }
            }
            if let Some(Ok(all)) = scanned(entries, reads) {
                assert(paths_of(all) =~= paths_of(records).push(path));
            }
        }
    }
}

/// A scan that has succeeded has read all it had to read: with one more
/// answer, the series of its reads is the scan of the same entries no more.
pub proof fn lemma_scanned_is_complete(entries: Seq<Seq<char>>, reads: Seq<Event>, next: Event)
    requires
        scanned(entries, reads) matches Some(Ok(_)),
    ensures
        scanned(entries, reads.push(next)) is None,
{
    lemma_scanned_shape(entries, reads);
    if scanned(entries, reads.push(next)) is Some {
        lemma_scanned_shape(entries, reads.push(next));
    }
}

/// A scan passes over an entry that is no link file.
pub proof fn lemma_scanned_passes(entries: Seq<Seq<char>>, reads: Seq<Event>, path: Seq<char>)
    requires
        scanned(entries, reads) matches Some(Ok(_)),
        !is_link_path(path),
    ensures
        scanned(entries.push(path), reads) == scanned(entries, reads),
{
    assert(entries.push(path).drop_last() =~= entries);
}

/// A scan that has succeeded so far goes on with the read of the next link
/// file: it gains the record that the answer yields, or fails as the answer
/// does.
pub proof fn lemma_scanned_reads_next(
    entries: Seq<Seq<char>>,
    reads: Seq<Event>,
    path: Seq<char>,
    outcome: Result<Seq<char>, Error>,
)
    requires
        scanned(entries, reads) matches Some(Ok(_)),
        is_link_path(path),
    ensures
        scanned(entries.push(path), reads.push(Event::ReadToString { path, outcome })) == Some(
            match record_read(path, outcome) {
                Ok(record) => Ok(scanned(entries, reads)->Some_0->Ok_0.push(record)),
                Err(e) => Err(e),
            },
        ),
{
    let next = Event::ReadToString { path, outcome };
    lemma_scanned_is_complete(entries, reads, next);
    assert(entries.push(path).drop_last() =~= entries);
    assert(reads.push(next).drop_last() =~= reads);
}

/// A scan that has failed on the first `k` entries has failed on all of them.
pub proof fn lemma_scanned_failed(entries: Seq<Seq<char>>, k: int, reads: Seq<Event>)
    requires
        0 <= k <= entries.len(),
        scanned(entries.take(k), reads) matches Some(Err(_)),
    ensures
        scanned(entries, reads) == scanned(entries.take(k), reads),
    decreases entries.len() - k,
{
    if k < entries.len() {
        assert(entries.take(k + 1).drop_last() =~= entries.take(k));
        lemma_scanned_failed(entries, k + 1, reads);
    } else {
        assert(entries.take(k) =~= entries);
    }
}

/// A listing makes no call but to the file system.
pub proof fn lemma_listed_reads(dir: Seq<char>, reads: Seq<Event>)
    requires
        listed(dir, reads) is Some,
    ensures
        reads.len() > 0,
        forall|i: int| 0 <= i < reads.len() ==> reads[i].is_read(),
{
    if reads.len() > 2 {
        if let Event::ReadDir { path, outcome } = reads[1] {
            if let Ok(entries) = outcome {
                lemma_scanned_reads(entries, reads.skip(2));
                assert forall|i: int| 0 <= i < reads.len() implies reads[i].is_read() by {
                    if i >= 2 {
                        assert(reads[i] == reads.skip(2)[i - 2]);
                    }
                }
            }
        }
    }
}

/// A success without a value is the one success there is.
pub proof fn lemma_plain_success(outcome: Result<(), Error>)
    requires
        outcome is Ok,
    ensures
        outcome == Ok::<(), Error>(()),
{
    let unit = outcome->Ok_0;
    assert(unit == ());
    assert(outcome == Ok::<(), Error>(unit));
}

/// How a staging runs: one call for each path in order, each of which
/// succeeds, but for the last call of a staging that fails.
pub proof fn lemma_staged_shape(working_dir: Seq<char>, paths: Seq<Seq<char>>, writes: Seq<Event>)
    requires
        staged(working_dir, paths, writes) is Some,
    ensures
        writes.len() <= paths.len(),
        staged(working_dir, paths, writes) matches Some(Ok(_)) ==> writes.len() == paths.len(),
        staged(working_dir, paths, writes) matches Some(Err(_)) ==> writes.len() >= 1,
        forall|i: int|
            0 <= i < writes.len() ==> #[trigger] writes[i] == (Event::Remove {
                working_dir,
                path: paths[i],
                outcome: if i < writes.len() - 1 {
                    Ok(())
                } else {
                    staged(working_dir, paths, writes)->Some_0
                },
            }),
    decreases paths.len(),
{
    if paths.len() > 0 {
        let earlier = paths.drop_last();
        if staged(working_dir, earlier, writes) matches Some(Err(_)) {
            lemma_staged_shape(working_dir, earlier, writes);
        } else {
            let before = writes.drop_last();
            lemma_staged_shape(working_dir, earlier, before);
            if staged(working_dir, earlier, writes) is Some {
                lemma_staged_shape(working_dir, earlier, writes);
            }
            lemma_plain_success(staged(working_dir, earlier, before)->Some_0);
            assert forall|i: int| 0 <= i < writes.len() implies #[trigger] writes[i] == (Event::Remove {
                working_dir,
                path: paths[i],
                outcome: if i < writes.len() - 1 {
                    Ok(())
                } else {
                    staged(working_dir, paths, writes)->Some_0
                },
            }) by {
                if i < writes.len() - 1 {
                    assert(writes[i] == before[i]);
                    assert(earlier[i] == paths[i]);
                }
            }
        }
    }
}

/// A staging that has succeeded so far goes on with the next path, and has
/// the outcome of that call.
pub proof fn lemma_staged_next(
    working_dir: Seq<char>,
    paths: Seq<Seq<char>>,
    writes: Seq<Event>,
    path: Seq<char>,
    outcome: Result<(), Error>,
)
    requires
        staged(working_dir, paths, writes) matches Some(Ok(_)),
    ensures
        staged(
            working_dir,
            paths.push(path),
            writes.push(Event::Remove { working_dir, path, outcome }),
        ) == Some(outcome),
{
    let next = Event::Remove { working_dir, path, outcome };
    lemma_staged_shape(working_dir, paths, writes);
    if staged(working_dir, paths, writes.push(next)) is Some {
        lemma_staged_shape(working_dir, paths, writes.push(next));
    }
    assert(paths.push(path).drop_last() =~= paths);
    assert(writes.push(next).drop_last() =~= writes);
}

/// A staging that has succeeded, followed by a commit, is a removal, and has
/// the outcome of the commit.
pub proof fn lemma_removed_with_commit(
    working_dir: Seq<char>,
    paths: Seq<Seq<char>>,
    message: Seq<char>,
    writes: Seq<Event>,
    outcome: Result<(), Error>,
)
    requires
        staged(working_dir, paths, writes) matches Some(Ok(_)),
    ensures
        removed(
            working_dir,
            paths,
            message,
            writes.push(Event::Commit { working_dir, message, outcome }),
        ) == Some(outcome),
{
    let last = Event::Commit { working_dir, message, outcome };
    let all = writes.push(last);
    if staged(working_dir, paths, all) is Some {
        lemma_staged_shape(working_dir, paths, all);
        assert(all[all.len() - 1] is Remove);
    }
    assert(all.drop_last() =~= writes);
}

/// A staging that has failed on the first `k` paths has failed on all of
/// them.
pub proof fn lemma_staged_failed(
    working_dir: Seq<char>,
    paths: Seq<Seq<char>>,
    k: int,
    writes: Seq<Event>,
)
    requires
        0 <= k <= paths.len(),
        staged(working_dir, paths.take(k), writes) matches Some(Err(_)),
    ensures
        staged(working_dir, paths, writes) == staged(working_dir, paths.take(k), writes),
    decreases paths.len() - k,
{
    if k < paths.len() {
        assert(paths.take(k + 1).drop_last() =~= paths.take(k));
        lemma_staged_failed(working_dir, paths, k + 1, writes);
    } else {
        assert(paths.take(k) =~= paths);
    }
}

/// Every call before the first write is a read, and the call that follows
/// them, if there is one, is a write.
pub proof fn lemma_reading_len_splits(trail: Seq<Event>)
    ensures
        reading_len(trail) <= trail.len(),
        forall|j: int| 0 <= j < reading_len(trail) ==> trail[j].is_read(),
        reading_len(trail) < trail.len() ==> !trail[reading_len(trail) as int].is_read(),
    decreases trail.len(),
{
    if trail.len() > 0 {
        let before = trail.drop_last();
        lemma_reading_len_splits(before);
        assert forall|j: int| 0 <= j < reading_len(trail) implies trail[j].is_read() by {
            if j < before.len() {
                assert(trail[j] == before[j]);
            }
        }
        if reading_len(trail) < trail.len() && reading_len(before) < before.len() {
            assert(trail[reading_len(trail) as int] == before[reading_len(before) as int]);
        }
    }
}

/// A scan in which a read or a decode fails ends with that failure, and has
/// its error.
pub proof fn lemma_scanned_failure(entries: Seq<Seq<char>>, reads: Seq<Event>, i: int)
    requires
        scanned(entries, reads) is Some,
        0 <= i < reads.len(),
        reads[i] matches Event::ReadToString { path, outcome } && record_read(path, outcome) is Err,
    ensures
        i == reads.len() - 1,
        reads[i] matches Event::ReadToString { path, outcome } && scanned(entries, reads) == Some(
            Err::<Seq<StoredLinkView>, Error>(record_read(path, outcome)->Err_0),
        ),
    decreases entries.len(),
{
    if entries.len() > 0 {
        let earlier = entries.drop_last();
        if scanned(earlier, reads) is Some {
            lemma_scanned_failure(earlier, reads, i);
        } else {
            let before = reads.drop_last();
            if i < reads.len() - 1 {
                assert(before[i] == reads[i]);
                lemma_scanned_failure(earlier, before, i);
            }
        }
    }
}

/// A listing in which a read of a file or a decode fails ends with that
/// failure, and has its error.
pub proof fn lemma_listed_failure(dir: Seq<char>, reads: Seq<Event>, i: int)
    requires
        listed(dir, reads) is Some,
        0 <= i < reads.len(),
        reads[i] matches Event::ReadToString { path, outcome } && record_read(path, outcome) is Err,
    ensures
        i == reads.len() - 1,
        reads[i] matches Event::ReadToString { path, outcome } && listed(dir, reads) == Some(
            Err::<Seq<StoredLinkView>, Error>(record_read(path, outcome)->Err_0),
        ),
{
    if let Event::ReadDir { path, outcome } = reads[1] {
        if let Ok(entries) = outcome {
            assert(reads.skip(2)[i - 2] == reads[i]);
            lemma_scanned_failure(entries, reads.skip(2), i - 2);
        }
    }
}

/// How a removal runs: one staging for each path in order and, if all of
/// them succeed, one commit, which is the last call.
pub proof fn lemma_removed_shape(
    working_dir: Seq<char>,
    paths: Seq<Seq<char>>,
    message: Seq<char>,
    writes: Seq<Event>,
)
    requires
        removed(working_dir, paths, message, writes) is Some,
    ensures
        ({
            let outcome = removed(working_dir, paths, message, writes)->Some_0;
            let stagings = if writes.len() <= paths.len() {
                writes.len() as int
            } else {
                paths.len() as int
            };
            &&& writes.len() <= paths.len() + 1
            &&& forall|i: int|
                0 <= i < stagings ==> #[trigger] writes[i] == (Event::Remove {
                    working_dir,
                    path: paths[i],
                    outcome: if i < writes.len() - 1 {
                        Ok(())
                    } else {
                        outcome
                    },
                })
            &&& writes.len() == paths.len() + 1 ==> writes.last() == (Event::Commit {
                working_dir,
                message,
                outcome,
            })
            &&& writes.len() <= paths.len() ==> outcome is Err && writes.len() >= 1
            &&& outcome is Ok ==> writes.len() == paths.len() + 1
        }),
{
    if staged(working_dir, paths, writes) matches Some(Err(_)) {
        lemma_staged_shape(working_dir, paths, writes);
    } else {
        let before = writes.drop_last();
        lemma_staged_shape(working_dir, paths, before);
        lemma_plain_success(staged(working_dir, paths, before)->Some_0);
        assert forall|i: int| 0 <= i < paths.len() implies #[trigger] writes[i] == (Event::Remove {
            working_dir,
            path: paths[i],
            outcome: Ok(()),
        }) by {
            assert(writes[i] == before[i]);
        }
    }
}

/// A trail of reads alone is all reading.
pub proof fn lemma_reading_len_of_reads(reads: Seq<Event>)
    requires
        forall|i: int| 0 <= i < reads.len() ==> reads[i].is_read(),
    ensures
        reading_len(reads) == reads.len(),
    decreases reads.len(),
{
    if reads.len() > 0 {
        lemma_reading_len_of_reads(reads.drop_last());
    }
}

/// Reads that are followed by writes end where the writes begin.
pub proof fn lemma_reading_len_before_writes(reads: Seq<Event>, writes: Seq<Event>)
    requires
        forall|i: int| 0 <= i < reads.len() ==> reads[i].is_read(),
        writes.len() > 0,
        writes[0].is_write(),
    ensures
        reading_len(reads + writes) == reads.len(),
    decreases writes.len(),
{
    let trail = reads + writes;
    assert(trail.drop_last() =~= reads + writes.drop_last());
    if writes.len() == 1 {
        assert(reads + writes.drop_last() =~= reads);
        lemma_reading_len_of_reads(reads);
    } else {
        assert(writes.drop_last()[0] == writes[0]);
        lemma_reading_len_before_writes(reads, writes.drop_last());
    }
}

/// A removal of at least one path begins with a call to the versioned
/// storage.
pub proof fn lemma_removed_begins_with_write(
    working_dir: Seq<char>,
    paths: Seq<Seq<char>>,
    message: Seq<char>,
    writes: Seq<Event>,
)
    requires
        paths.len() > 0,
        removed(working_dir, paths, message, writes) is Some,
    ensures
        writes.len() > 0,
        writes[0].is_write(),
{
    if staged(working_dir, paths, writes) matches Some(Err(_)) {
        lemma_staged_shape(working_dir, paths, writes);
    } else {
        lemma_staged_shape(working_dir, paths, writes.drop_last());
        assert(writes.drop_last().len() == paths.len());
        assert(writes[0] == writes.drop_last()[0]);
    }
}

/// A listing that fails, or after which nothing is selected, is a whole
/// transaction.
pub proof fn lemma_transaction_without_writes(
    reads: Seq<Event>,
    working_dir: Seq<char>,
    mode: ModeView,
    link_type: Option<Seq<char>>,
)
    requires
        listed(links_dir_of(working_dir), reads) is Some,
        listed(links_dir_of(working_dir), reads) matches Some(Ok(records)) ==> selected(
            records,
            mode.criteria(link_type),
        ).len() == 0,
    ensures
        transaction(reads, working_dir, mode, link_type) == (match listed(
            links_dir_of(working_dir),
            reads,
        ) {
            Some(Err(e)) => Some(Err::<nat, Error>(e)),
            _ => Some(Ok(0nat)),
        }),
{
    lemma_listed_reads(links_dir_of(working_dir), reads);
    lemma_reading_len_of_reads(reads);
    assert(reads.take(reads.len() as int) =~= reads);
}

/// A listing after which something is selected, followed by the removal of
/// what is selected, is a whole transaction.
pub proof fn lemma_transaction_with_writes(
    reads: Seq<Event>,
    writes: Seq<Event>,
    working_dir: Seq<char>,
    mode: ModeView,
    link_type: Option<Seq<char>>,
)
    requires
        listed(links_dir_of(working_dir), reads) matches Some(Ok(records)) && ({
            let chosen = selected(records, mode.criteria(link_type));
            &&& chosen.len() > 0
            &&& removed(working_dir, paths_of(chosen), mode.message(chosen.len()), writes) is Some
        }),
    ensures
        transaction(reads + writes, working_dir, mode, link_type) == ({
            let records = listed(links_dir_of(working_dir), reads)->Some_0->Ok_0;
            let chosen = selected(records, mode.criteria(link_type));
            match removed(working_dir, paths_of(chosen), mode.message(chosen.len()), writes) {
                Some(Err(e)) => Some(Err::<nat, Error>(e)),
                _ => Some(Ok(chosen.len())),
            }
        }),
{
    let records = listed(links_dir_of(working_dir), reads)->Some_0->Ok_0;
    let chosen = selected(records, mode.criteria(link_type));
    lemma_listed_reads(links_dir_of(working_dir), reads);
    lemma_removed_begins_with_write(
        working_dir,
        paths_of(chosen),
        mode.message(chosen.len()),
        writes,
    );
    lemma_reading_len_before_writes(reads, writes);
    let trail = reads + writes;
    assert(trail.take(reads.len() as int) =~= reads);
    assert(trail.skip(reads.len() as int) =~= writes);
}

} // verus!
