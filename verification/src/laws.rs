//! What holds of every removal transaction.
//!
//! Each law speaks of a trail that is the run of a transaction, as the
//! contracts of the command's operations say the calls of each operation are.

use crate::context::links_dir_of;
use crate::criteria::{remaining, selected, selects, CriteriaView};
use crate::error::Error;
use crate::journal::{
    lemma_listed_failure, lemma_listed_reads, lemma_plain_success, lemma_reading_len_splits,
    lemma_removed_shape, listing, reading_len, record_read, removed, transaction, Event,
};
use crate::link::{decoded, paths_of, StoredLinkView};
use crate::message::{tally, ModeView};
use vstd::prelude::*;

verus! {

/// Reads come before writes: a transaction asks the file system all it asks
/// before it first calls the versioned storage, and it asks at least whether
/// the store exists.
pub proof fn lemma_reads_before_writes(
    trail: Seq<Event>,
    working_dir: Seq<char>,
    mode: ModeView,
    link_type: Option<Seq<char>>,
)
    requires
        transaction(trail, working_dir, mode, link_type) is Some,
    ensures
        1 <= reading_len(trail) <= trail.len(),
        trail[0] matches Event::Exists { path, found } && path == links_dir_of(working_dir),
        forall|j: int| 0 <= j < reading_len(trail) ==> trail[j].is_read(),
        forall|j: int| reading_len(trail) <= j < trail.len() ==> trail[j].is_write(),
{
    let k = reading_len(trail) as int;
    lemma_reading_len_splits(trail);
    lemma_listed_reads(links_dir_of(working_dir), trail.take(k));
    assert(trail.take(k)[0] == trail[0]);
    if k < trail.len() {
        let records = listing(trail, working_dir)->Some_0->Ok_0;
        let chosen = selected(records, mode.criteria(link_type));
        let paths = paths_of(chosen);
        let writes = trail.skip(k);
        lemma_removed_shape(working_dir, paths, mode.message(chosen.len()), writes);
        assert forall|j: int| k <= j < trail.len() implies trail[j].is_write() by {
            assert(trail[j] == writes[j - k]);
            if j - k < paths.len() {
                assert(writes[j - k] is Remove);
            } else {
                assert(writes[j - k] == writes.last());
            }
        }
    }
}

/// A store that does not exist is an empty store: the transaction has the
/// result zero, and makes no call but the one that asks for the store.
pub proof fn lemma_missing_store_removes_nothing(
    trail: Seq<Event>,
    working_dir: Seq<char>,
    mode: ModeView,
    link_type: Option<Seq<char>>,
)
    requires
        transaction(trail, working_dir, mode, link_type) is Some,
        trail.len() > 0,
        trail[0] matches Event::Exists { path, found } && !found,
    ensures
        transaction(trail, working_dir, mode, link_type) == Some(Ok::<nat, Error>(0)),
        trail.len() == 1,
{
    let k = reading_len(trail) as int;
    lemma_reads_before_writes(trail, working_dir, mode, link_type);
    assert(trail.take(k)[0] == trail[0]);
    let none = Seq::<StoredLinkView>::empty();
    none.lemma_filter_len(|record: StoredLinkView| selects(mode.criteria(link_type), record.link));
}

/// A transaction that selects nothing writes nothing; one that removes
/// something stages each selected file, in the order of the listing, and then
/// commits once, under the message of its mode. Its result is the number of
/// selected records.
pub proof fn lemma_success_counts_and_commits_once(
    trail: Seq<Event>,
    working_dir: Seq<char>,
    mode: ModeView,
    link_type: Option<Seq<char>>,
    n: nat,
)
    requires
        transaction(trail, working_dir, mode, link_type) == Some(Ok::<nat, Error>(n)),
    ensures
        listing(trail, working_dir) matches Some(Ok(records)) && ({
            let chosen = selected(records, mode.criteria(link_type));
            let k = reading_len(trail) as int;
            &&& n == chosen.len()
            &&& n == 0 ==> trail.len() == k
            &&& n > 0 ==> trail.len() == k + n + 1
            &&& forall|i: int|
                0 <= i < n ==> #[trigger] trail[k + i] == (Event::Remove {
                    working_dir,
                    path: chosen[i].path,
                    outcome: Ok(()),
                })
            &&& n > 0 ==> trail.last() == (Event::Commit {
                working_dir,
                message: mode.message(n),
                outcome: Ok(()),
            })
            &&& forall|j: int| 0 <= j < trail.len() - 1 ==> !(#[trigger] trail[j] is Commit)
        }),
{
    let k = reading_len(trail) as int;
    lemma_reading_len_splits(trail);
    let records = listing(trail, working_dir)->Some_0->Ok_0;
    let chosen = selected(records, mode.criteria(link_type));
    if chosen.len() > 0 {
        let writes = trail.skip(k);
        lemma_removed_shape(working_dir, paths_of(chosen), mode.message(chosen.len()), writes);
        lemma_plain_success(
            removed(working_dir, paths_of(chosen), mode.message(chosen.len()), writes)->Some_0,
        );
        assert(writes.last() == trail.last());
        assert forall|j: int| 0 <= j < trail.len() - 1 implies !(#[trigger] trail[j] is Commit) by {
            if j >= k {
                assert(trail[j] == writes[j - k]);
            } else {
                assert(trail[j].is_read());
            }
        }
        assert forall|i: int| 0 <= i < n implies #[trigger] trail[k + i] == (Event::Remove {
            working_dir,
            path: chosen[i].path,
            outcome: Ok(()),
        }) by {
            assert(trail[k + i] == writes[i]);
        }
    }
}

/// A transaction whose listing succeeds and in which nothing is selected has
/// the result zero, and writes nothing.
pub proof fn lemma_nothing_selected_writes_nothing(
    trail: Seq<Event>,
    working_dir: Seq<char>,
    mode: ModeView,
    link_type: Option<Seq<char>>,
)
    requires
        transaction(trail, working_dir, mode, link_type) is Some,
        listing(trail, working_dir) matches Some(Ok(records)) && selected(
            records,
            mode.criteria(link_type),
        ).len() == 0,
    ensures
        transaction(trail, working_dir, mode, link_type) == Some(Ok::<nat, Error>(0)),
        forall|j: int| 0 <= j < trail.len() ==> !trail[j].is_write(),
{
    lemma_reads_before_writes(trail, working_dir, mode, link_type);
}

/// The message of a commit ends with the count of removed links, in
/// brackets, with "link" for one and "links" otherwise.
pub proof fn lemma_message_ends_with_tally(mode: ModeView, n: nat)
    ensures
        tally(n).len() <= mode.message(n).len(),
        mode.message(n).skip(mode.message(n).len() - tally(n).len()) == tally(n),
{
    let message = mode.message(n);
    assert(message.skip(message.len() - tally(n).len()) =~= tally(n));
}

/// A file that cannot be read, or whose text holds no link, fails the whole
/// transaction, with the error of the read or with `MalformedLink`. It is the
/// last call of the transaction: nothing is staged and nothing is committed.
pub proof fn lemma_failed_read_fails_all(
    trail: Seq<Event>,
    working_dir: Seq<char>,
    mode: ModeView,
    link_type: Option<Seq<char>>,
    i: int,
)
    requires
        transaction(trail, working_dir, mode, link_type) is Some,
        0 <= i < trail.len(),
        trail[i] matches Event::ReadToString { path, outcome } && record_read(path, outcome) is Err,
    ensures
        i == trail.len() - 1,
        trail[i] matches Event::ReadToString { path, outcome } && transaction(
            trail,
            working_dir,
            mode,
            link_type,
        ) == Some(Err::<nat, Error>(record_read(path, outcome)->Err_0)),
        forall|j: int| 0 <= j < trail.len() ==> !trail[j].is_write(),
{
    let k = reading_len(trail) as int;
    lemma_reads_before_writes(trail, working_dir, mode, link_type);
    let reads = trail.take(k);
    assert(reads[i] == trail[i]);
    lemma_listed_failure(links_dir_of(working_dir), reads, i);
}

/// A text that holds no link fails the whole transaction with
/// `MalformedLink`, and nothing is staged or committed.
pub proof fn lemma_malformed_link_fails_all(
    trail: Seq<Event>,
    working_dir: Seq<char>,
    mode: ModeView,
    link_type: Option<Seq<char>>,
    i: int,
)
    requires
        transaction(trail, working_dir, mode, link_type) is Some,
        0 <= i < trail.len(),
        trail[i] matches Event::ReadToString { path, outcome } && outcome matches Ok(text)
            && decoded(text) is None,
    ensures
        transaction(trail, working_dir, mode, link_type) == Some(
            Err::<nat, Error>(Error::MalformedLink),
        ),
        forall|j: int| 0 <= j < trail.len() ==> !trail[j].is_write(),
{
    lemma_failed_read_fails_all(trail, working_dir, mode, link_type, i);
}

/// A staging that fails ends the transaction, with the error of that call.
/// The stagings before it have succeeded and stay as they are, and nothing is
/// committed.
pub proof fn lemma_failed_staging_ends_without_commit(
    trail: Seq<Event>,
    working_dir: Seq<char>,
    mode: ModeView,
    link_type: Option<Seq<char>>,
    i: int,
)
    requires
        transaction(trail, working_dir, mode, link_type) is Some,
        0 <= i < trail.len(),
        trail[i] matches Event::Remove { working_dir: root, path, outcome } && outcome is Err,
    ensures
        i == trail.len() - 1,
        trail[i] matches Event::Remove { working_dir: root, path, outcome } && transaction(
            trail,
            working_dir,
            mode,
            link_type,
        ) == Some(Err::<nat, Error>(outcome->Err_0)),
        forall|j: int| 0 <= j < trail.len() ==> !(trail[j] is Commit),
        forall|j: int|
            reading_len(trail) <= j < i ==> (#[trigger] trail[j] matches Event::Remove {
                working_dir: root,
                path,
                outcome,
            } && outcome is Ok),
{
    let k = reading_len(trail) as int;
    lemma_reads_before_writes(trail, working_dir, mode, link_type);
    let records = listing(trail, working_dir)->Some_0->Ok_0;
    let chosen = selected(records, mode.criteria(link_type));
    let paths = paths_of(chosen);
    let writes = trail.skip(k);
    assert(i >= k) by {
        if i < k {
            assert(trail[i].is_read());
        }
    }
    lemma_removed_shape(working_dir, paths, mode.message(chosen.len()), writes);
    assert(writes[i - k] == trail[i]);
    if writes.len() == paths.len() + 1 {
        assert(writes.last() is Commit);
        assert(i - k < paths.len());
    }
    assert forall|j: int| 0 <= j < trail.len() implies !(trail[j] is Commit) by {
        if j >= k {
            assert(trail[j] == writes[j - k]);
        } else {
            assert(trail[j].is_read());
        }
    }
    assert forall|j: int| k <= j < i implies (#[trigger] trail[j] matches Event::Remove {
        working_dir: root,
        path,
        outcome,
    } && outcome is Ok) by {
        assert(trail[j] == writes[j - k]);
    }
}

/// What a selection leaves, the same selection selects nothing of.
pub proof fn lemma_nothing_selected_twice(records: Seq<StoredLinkView>, criteria: CriteriaView)
    ensures
        selected(remaining(records, criteria), criteria).len() == 0,
        selected(records, criteria).len() + remaining(records, criteria).len() == records.len(),
    decreases records.len(),
{
    let chooses = |record: StoredLinkView| selects(criteria, record.link);
    let leaves = |record: StoredLinkView| !selects(criteria, record.link);
    if records.len() == 0 {
        records.lemma_filter_len(chooses);
        records.lemma_filter_len(leaves);
        records.filter(leaves).lemma_filter_len(chooses);
    } else {
        let earlier = records.drop_last();
        let last = records.last();
        lemma_nothing_selected_twice(earlier, criteria);
        assert(earlier.push(last) =~= records);
        earlier.lemma_filter_push(last, chooses);
        earlier.lemma_filter_push(last, leaves);
        if leaves(last) {
            earlier.filter(leaves).lemma_filter_push(last, chooses);
        }
    }
}

/// Removing twice removes once: a transaction that finds in the store what
/// the same removal has left there has the result zero, and writes nothing.
pub proof fn lemma_second_removal_finds_nothing(
    first: Seq<Event>,
    second: Seq<Event>,
    working_dir: Seq<char>,
    mode: ModeView,
    link_type: Option<Seq<char>>,
)
    requires
        transaction(first, working_dir, mode, link_type) matches Some(Ok(_)),
        transaction(second, working_dir, mode, link_type) is Some,
        listing(first, working_dir) matches Some(Ok(records)) && listing(second, working_dir)
            == Some(
            Ok::<Seq<StoredLinkView>, Error>(remaining(records, mode.criteria(link_type))),
        ),
    ensures
        transaction(second, working_dir, mode, link_type) == Some(Ok::<nat, Error>(0)),
        forall|j: int| 0 <= j < second.len() ==> !second[j].is_write(),
{
    let records = listing(first, working_dir)->Some_0->Ok_0;
    lemma_nothing_selected_twice(records, mode.criteria(link_type));
    lemma_nothing_selected_writes_nothing(second, working_dir, mode, link_type);
}

} // verus!
