//! Removal of links, as one transaction.

use crate::context::{links_dir_of, GitMindContext};
use crate::criteria::{
    lemma_everything_selected, selected, selects, slice_of, CriteriaView, SelectionCriteria,
};
use crate::error::Error;
use crate::filesystem::FileSystem;
use crate::git::GitOperations;
use crate::journal::{
    answer_of, lemma_plain_success, lemma_removed_with_commit, lemma_scanned_failed,
    lemma_scanned_passes, lemma_scanned_reads_next, lemma_staged_failed, lemma_staged_next,
    lemma_transaction_with_writes, lemma_transaction_without_writes, listed, scanned, staged,
    transaction, Event,
};
use crate::link::{is_link_file, paths_of, records_of, Link, StoredLink, StoredLinkView};
use crate::message::{
    all_from_message, all_from_text, all_to_message, all_to_text, exact_pair_message,
    exact_pair_text, ModeView, SelectionMode,
};
use vstd::prelude::*;

verus! {

/// The characters of each of `paths`.
pub open spec fn texts_of(paths: Seq<String>) -> Seq<Seq<char>> {
    paths.map_values(|path: String| path@)
}

/// The answer to a listing of a directory, as a mathematical value.
pub open spec fn listing_of(r: Result<Vec<String>, Error>) -> Result<Seq<Seq<char>>, Error> {
    match r {
        Ok(entries) => Ok(texts_of(entries@)),
        Err(e) => Err(e),
    }
}

/// The result of a transaction as a mathematical value.
pub open spec fn count_of(r: Result<usize, Error>) -> Result<nat, Error> {
    match r {
        Ok(n) => Ok(n as nat),
        Err(e) => Err(e),
    }
}

/// Removes links from the store of one repository.
///
/// The command owns the two capabilities it works through, and keeps a
/// journal of every call it has made to them.
pub struct UnlinkCommand<G: GitOperations, F: FileSystem> {
    context: GitMindContext,
    git: G,
    fs: F,
    journal: Ghost<Seq<Event>>,
}

impl<G: GitOperations, F: FileSystem> UnlinkCommand<G, F> {
    /// The root of the repository that the command works in.
    pub closed spec fn working_dir(&self) -> Seq<char> {
        self.context.working_dir@
    }

    /// The versioned storage that the command writes to.
    pub closed spec fn storage(&self) -> G {
        self.git
    }

    /// The file system that the command reads.
    pub closed spec fn files(&self) -> F {
        self.fs
    }

    /// The calls that the command has made so far, oldest first.
    pub closed spec fn journal(&self) -> Seq<Event> {
        self.journal@
    }

    /// Whether the command works in the same repository as `before`, through
    /// the same capabilities.
    pub open spec fn same_setup(&self, before: &Self) -> bool {
        &&& self.working_dir() == before.working_dir()
        &&& self.storage() == before.storage()
        &&& self.files() == before.files()
    }

    /// Whether the command is `before` after further calls: the repository
    /// and the capabilities are the same, and the journal has only grown.
    pub open spec fn follows(&self, before: &Self) -> bool {
        &&& self.same_setup(before)
        &&& before.journal().len() <= self.journal().len()
        &&& self.journal() == before.journal() + self.since(before)
    }

    /// The calls that the command has made since it was `before`.
    pub open spec fn since(&self, before: &Self) -> Seq<Event> {
        self.journal().skip(before.journal().len() as int)
    }

    /// A command for the repository at `working_dir`, which has made no call
    /// yet. It never fails.
    pub fn new(working_dir: &str, git: G, fs: F) -> (r: Result<Self, Error>)
        ensures
            r is Ok,
            r->Ok_0.working_dir() == working_dir@,
            r->Ok_0.storage() == git,
            r->Ok_0.files() == fs,
            r->Ok_0.journal() == Seq::<Event>::empty(),
    {
        let context = GitMindContext::new(working_dir);
        Ok(UnlinkCommand { context, git, fs, journal: Ghost(Seq::empty()) })
    }

    /// Removes the links from `source` to `target`, of type `link_type` if
    /// one is given, and returns how many there were.
    pub fn execute(&mut self, source: &str, target: &str, link_type: Option<&str>) -> (r: Result<
        usize,
        Error,
    >)
        ensures
            final(self).follows(old(self)),
            transaction(
                final(self).since(old(self)),
                old(self).working_dir(),
                ModeView::ExactPair { source: source@, target: target@ },
                slice_of(link_type),
            ) == Some(count_of(r)),
    {
        self.remove(SelectionMode::ExactPair { source, target }, link_type)
    }

    /// Removes all links from `source`, of type `link_type` if one is given,
    /// and returns how many there were.
    pub fn execute_all_from(&mut self, source: &str, link_type: Option<&str>) -> (r: Result<
        usize,
        Error,
    >)
        ensures
            final(self).follows(old(self)),
            transaction(
                final(self).since(old(self)),
                old(self).working_dir(),
                ModeView::AllFrom { source: source@ },
                slice_of(link_type),
            ) == Some(count_of(r)),
    {
        self.remove(SelectionMode::AllFrom { source }, link_type)
    }

    /// Removes all links to `target`, of type `link_type` if one is given,
    /// and returns how many there were.
    pub fn execute_to(&mut self, target: &str, link_type: Option<&str>) -> (r: Result<usize, Error>)
        ensures
            final(self).follows(old(self)),
            transaction(
                final(self).since(old(self)),
                old(self).working_dir(),
                ModeView::AllTo { target: target@ },
                slice_of(link_type),
            ) == Some(count_of(r)),
    {
        self.remove(SelectionMode::AllTo { target }, link_type)
    }

    /// Removes the links that `mode` names, of type `link_type` if one is
    /// given, as one transaction, and returns how many there were.
    ///
    /// The store is listed first. If nothing is selected, nothing is written.
    /// Otherwise the removal of each selected file is staged, and then all of
    /// them are committed at once. A staging that fails ends the transaction
    /// at once: what was staged before stays staged, and nothing is
    /// committed.
    pub fn remove(&mut self, mode: SelectionMode<'_>, link_type: Option<&str>) -> (r: Result<
        usize,
        Error,
    >)
        ensures
            final(self).follows(old(self)),
            transaction(
                final(self).since(old(self)),
                old(self).working_dir(),
                mode@,
                slice_of(link_type),
            ) == Some(count_of(r)),
    {
        let ghost working_dir = self.working_dir();
        let ghost filter = slice_of(link_type);
        let links = match self.find_links(mode.source(), mode.target(), link_type) {
            Ok(links) => links,
            Err(e) => {
                proof {
                    lemma_transaction_without_writes(
                        self.since(old(self)),
                        working_dir,
                        mode@,
                        filter,
                    );
                }
                return Err(e);
            },
        };
        let count: usize = links.len();
        let ghost found = *self;
        let ghost reads = self.since(old(self));
        let ghost paths = paths_of(records_of(links@));
        if count == 0 {
            proof {
                lemma_transaction_without_writes(reads, working_dir, mode@, filter);
            }
            return Ok(0);
        }
        let staging = self.remove_links(&links);
        let ghost stagings = self.since(&found);
        let outcome = match staging {
            Ok(()) => {
                let committing = self.commit(mode, count);
                proof {
                    lemma_removed_with_commit(
                        working_dir,
                        paths,
                        mode@.message(count as nat),
                        stagings,
                        committing,
                    );
                    assert(self.since(&found) =~= stagings.push(
                        Event::Commit {
                            working_dir,
                            message: mode@.message(count as nat),
                            outcome: committing,
                        },
                    ));
                }
                committing
            },
            Err(e) => Err(e),
        };
        proof {
            let writes = self.since(&found);
            assert(self.journal() =~= old(self).journal() + (reads + writes));
            assert(self.since(old(self)) =~= reads + writes);
            lemma_transaction_with_writes(reads, writes, working_dir, mode@, filter);
        }
        match outcome {
            Ok(()) => Ok(count),
            Err(e) => Err(e),
        }
    }

    /// Lists the store: reads and decodes every link file directly inside
    /// the store directory, and returns the records in the order in which the
    /// file system lists the files.
    ///
    /// A store directory that does not exist is an empty store. One file that
    /// cannot be read, or that holds no link, fails the whole listing.
    pub fn list_candidates(&mut self) -> (r: Result<Vec<StoredLink>, Error>)
        ensures
            final(self).follows(old(self)),
            listed(links_dir_of(old(self).working_dir()), final(self).since(old(self))) == Some(
                match r {
                    Ok(links) => Ok(records_of(links@)),
                    Err(e) => Err(e),
                },
            ),
    {
        let r = self.find_links(None, None, None);
        proof {
            if let Some(Ok(records)) = listed(
                links_dir_of(old(self).working_dir()),
                self.since(old(self)),
            ) {
                let all = CriteriaView { source: None, target: None, link_type: None };
                lemma_everything_selected(records, all);
            }
        }
        r
    }

    /// Lists the store and returns the records that the criteria select, in
    /// the order of the listing.
    fn find_links(
        &mut self,
        source: Option<&str>,
        target: Option<&str>,
        link_type: Option<&str>,
    ) -> (r: Result<Vec<StoredLink>, Error>)
        ensures
            final(self).follows(old(self)),
            match listed(links_dir_of(old(self).working_dir()), final(self).since(old(self))) {
                Some(Ok(records)) => r is Ok && records_of(r->Ok_0@) == selected(
                    records,
                    CriteriaView {
                        source: slice_of(source),
                        target: slice_of(target),
                        link_type: slice_of(link_type),
                    },
                ),
                Some(Err(e)) => r == Err::<Vec<StoredLink>, Error>(e),
                None => false,
            },
    {
        let links_dir = self.context.links_dir();
        let mut matching_links: Vec<StoredLink> = Vec::new();
        let ghost base = self.journal().len() as int;
        let ghost dir = links_dir@;

        // If the store does not exist, there are no links to remove.
        if !self.path_exists(links_dir.as_str()) {
            proof {
                assert(self.since(old(self)) =~= seq![Event::Exists { path: dir, found: false }]);
                assert(self.journal() =~= old(self).journal() + self.since(old(self)));
                assert(records_of(matching_links@) =~= Seq::<StoredLinkView>::empty());
            }
            return Ok(matching_links);
        }
        let entries = match self.read_dir(links_dir.as_str()) {
            Ok(entries) => entries,
            Err(e) => {
                proof {
                    assert(self.since(old(self)) =~= seq![
                        Event::Exists { path: dir, found: true },
                        Event::ReadDir { path: dir, outcome: Err(e) },
                    ]);
                    assert(self.journal() =~= old(self).journal() + self.since(old(self)));
                }
                return Err(e);
            },
        };
        let criteria = SelectionCriteria::new(source, target, link_type);
        let ghost paths = texts_of(entries@);
        let ghost opening = seq![
            Event::Exists { path: dir, found: true },
            Event::ReadDir { path: dir, outcome: Ok::<Seq<Seq<char>>, Error>(paths) },
        ];
        let ghost mut reads: Seq<Event> = Seq::empty();
        let ghost mut records: Seq<StoredLinkView> = Seq::empty();
        proof {
            assert(paths.take(0) =~= Seq::<Seq<char>>::empty());
            assert(self.journal() =~= old(self).journal() + opening + reads);
            assert(records_of(matching_links@) =~= selected(records, criteria@));
        }
        let n: usize = entries.len();
        let mut i: usize = 0;
        while i < n
            invariant
                n == entries@.len(),
                i <= n,
                paths == texts_of(entries@),
                dir == links_dir_of(old(self).working_dir()),
                opening == seq![
                    Event::Exists { path: dir, found: true },
                    Event::ReadDir { path: dir, outcome: Ok::<Seq<Seq<char>>, Error>(paths) },
                ],
                self.same_setup(old(self)),
                self.journal() == old(self).journal() + opening + reads,
                scanned(paths.take(i as int), reads) == Some(
                    Ok::<Seq<StoredLinkView>, Error>(records),
                ),
                records_of(matching_links@) == selected(records, criteria@),
            decreases n - i,
        {
            let path = &entries[i];
            proof {
                assert(paths.take(i + 1) =~= paths.take(i as int).push(path@));
            }
            if is_link_file(path.as_str()) {
                let answer = self.read_to_string(path.as_str());
                proof {
                    lemma_scanned_reads_next(paths.take(i as int), reads, path@, answer_of(answer));
                    reads = reads.push(Event::ReadToString { path: path@, outcome: answer_of(answer) });
                    assert(self.journal() =~= old(self).journal() + opening + reads);
                }
                let decoding = match answer {
                    Ok(content) => Link::decode(content.as_str()),
                    Err(e) => Err(e),
                };
                match decoding {
                    Ok(link) => {
                        let stored = StoredLink { link, path: path.clone() };
                        proof {
                            records.lemma_filter_push(
                                stored@,
                                |record: StoredLinkView| selects(criteria@, record.link),
                            );
                            records = records.push(stored@);
                        }
                        if criteria.matches(&stored.link) {
                            let ghost kept = matching_links@;
                            matching_links.push(stored);
                            proof {
                                assert(records_of(matching_links@) =~= records_of(kept).push(stored@));
                            }
                        }
                    },
                    Err(e) => {
                        proof {
                            lemma_scanned_failed(paths, i + 1, reads);
                            assert(self.since(old(self)) =~= opening + reads);
                            assert((opening + reads).skip(2) =~= reads);
                            assert(self.journal() =~= old(self).journal() + self.since(old(self)));
                        }
                        return Err(e);
                    },
                }
            } else {
                proof {
                    lemma_scanned_passes(paths.take(i as int), reads, path@);
                }
            }
            i += 1;
        }
        proof {
            assert(paths.take(n as int) =~= paths);
            assert(self.since(old(self)) =~= opening + reads);
            assert((opening + reads).skip(2) =~= reads);
            assert(self.journal() =~= old(self).journal() + self.since(old(self)));
        }
        Ok(matching_links)
    }

    /// Stages the removal of the file of each of `links`, in order, and stops
    /// at the first that fails.
    fn remove_links(&mut self, links: &Vec<StoredLink>) -> (r: Result<(), Error>)
        ensures
            final(self).follows(old(self)),
            staged(
                old(self).working_dir(),
                paths_of(records_of(links@)),
                final(self).since(old(self)),
            ) == Some(r),
    {
        let ghost working_dir = self.working_dir();
        let ghost paths = paths_of(records_of(links@));
        let ghost mut writes: Seq<Event> = Seq::empty();
        let n: usize = links.len();
        let mut i: usize = 0;
        proof {
            assert(paths.take(0) =~= Seq::<Seq<char>>::empty());
            assert(self.journal() =~= old(self).journal() + writes);
        }
        while i < n
            invariant
                n == links@.len(),
                i <= n,
                paths == paths_of(records_of(links@)),
                working_dir == old(self).working_dir(),
                self.same_setup(old(self)),
                self.journal() == old(self).journal() + writes,
                staged(working_dir, paths.take(i as int), writes) == Some(Ok::<(), Error>(())),
            decreases n - i,
        {
            // Stage the removal of the link file.
            let outcome = self.git_remove(links[i].path.as_str());
            proof {
                let path = links@[i as int].path@;
                assert(paths.take(i + 1) =~= paths.take(i as int).push(path));
                lemma_staged_next(working_dir, paths.take(i as int), writes, path, outcome);
                writes = writes.push(Event::Remove { working_dir, path, outcome });
                assert(self.journal() =~= old(self).journal() + writes);
                assert(self.since(old(self)) =~= writes);
            }
            match outcome {
                Ok(()) => {
                    proof {
                        lemma_plain_success(outcome);
                    }
                },
                Err(e) => {
                    proof {
                        lemma_staged_failed(working_dir, paths, i + 1, writes);
                    }
                    return Err(e);
                },
            }
            i += 1;
        }
        proof {
            assert(paths.take(n as int) =~= paths);
            assert(self.since(old(self)) =~= writes);
        }
        Ok(())
    }

    /// Commits the removal of `count` links under the message of `mode`.
    fn commit(&mut self, mode: SelectionMode<'_>, count: usize) -> (r: Result<(), Error>)
        ensures
            final(self).same_setup(old(self)),
            final(self).journal() == old(self).journal().push(
                Event::Commit {
                    working_dir: old(self).working_dir(),
                    message: mode@.message(count as nat),
                    outcome: r,
                },
            ),
    {
        match mode {
            SelectionMode::ExactPair { source, target } => self.commit_removal(source, target, count),
            SelectionMode::AllFrom { source } => self.commit_removal_all_from(source, count),
            SelectionMode::AllTo { target } => self.commit_removal_to(target, count),
        }
    }

    /// Commits the removal of `count` links from `source` to `target`.
    fn commit_removal(&mut self, source: &str, target: &str, count: usize) -> (r: Result<(), Error>)
        ensures
            final(self).same_setup(old(self)),
            final(self).journal() == old(self).journal().push(
                Event::Commit {
                    working_dir: old(self).working_dir(),
                    message: exact_pair_text(source@, target@, count as nat),
                    outcome: r,
                },
            ),
    {
        let message = exact_pair_message(source, target, count);
        self.git_commit(message.as_str())
    }

    /// Commits the removal of all `count` links from `source`.
    fn commit_removal_all_from(&mut self, source: &str, count: usize) -> (r: Result<(), Error>)
        ensures
            final(self).same_setup(old(self)),
            final(self).journal() == old(self).journal().push(
                Event::Commit {
                    working_dir: old(self).working_dir(),
                    message: all_from_text(source@, count as nat),
                    outcome: r,
                },
            ),
    {
        let message = all_from_message(source, count);
        self.git_commit(message.as_str())
    }

    /// Commits the removal of all `count` links to `target`.
    fn commit_removal_to(&mut self, target: &str, count: usize) -> (r: Result<(), Error>)
        ensures
            final(self).same_setup(old(self)),
            final(self).journal() == old(self).journal().push(
                Event::Commit {
                    working_dir: old(self).working_dir(),
                    message: all_to_text(target@, count as nat),
                    outcome: r,
                },
            ),
    {
        let message = all_to_message(target, count);
        self.git_commit(message.as_str())
    }

    /// Commits what is staged, under `message`, and enters the call in the
    /// journal.
    fn git_commit(&mut self, message: &str) -> (r: Result<(), Error>)
        ensures
            final(self).same_setup(old(self)),
            final(self).journal() == old(self).journal().push(
                Event::Commit {
                    working_dir: old(self).working_dir(),
                    message: message@,
                    outcome: r,
                },
            ),
    {
        let r = self.git.commit(self.context.working_dir.as_str(), message);
        proof {
            self.journal@ = self.journal@.push(
                Event::Commit { working_dir: self.context.working_dir@, message: message@, outcome: r },
            );
        }
        r
    }

    /// Stages the removal of `path`, and enters the call in the journal.
    fn git_remove(&mut self, path: &str) -> (r: Result<(), Error>)
        ensures
            final(self).same_setup(old(self)),
            final(self).journal() == old(self).journal().push(
                Event::Remove { working_dir: old(self).working_dir(), path: path@, outcome: r },
            ),
    {
        let r = self.git.remove(self.context.working_dir.as_str(), path);
        proof {
            self.journal@ = self.journal@.push(
                Event::Remove { working_dir: self.context.working_dir@, path: path@, outcome: r },
            );
        }
        r
    }

    /// Asks whether `path` exists, and enters the call in the journal.
    fn path_exists(&mut self, path: &str) -> (found: bool)
        ensures
            final(self).same_setup(old(self)),
            final(self).journal() == old(self).journal().push(Event::Exists { path: path@, found }),
    {
        let found = self.fs.path_exists(path);
        proof {
            self.journal@ = self.journal@.push(Event::Exists { path: path@, found });
        }
        found
    }

    /// Asks for the entries of the directory `path`, and enters the call in
    /// the journal.
    fn read_dir(&mut self, path: &str) -> (r: Result<Vec<String>, Error>)
        ensures
            final(self).same_setup(old(self)),
            final(self).journal() == old(self).journal().push(
                Event::ReadDir { path: path@, outcome: listing_of(r) },
            ),
    {
        let r = self.fs.read_dir(path);
        proof {
            self.journal@ = self.journal@.push(
                Event::ReadDir { path: path@, outcome: listing_of(r) },
            );
        }
        r
    }

    /// Asks for the text of the file `path`, and enters the call in the
    /// journal.
    fn read_to_string(&mut self, path: &str) -> (r: Result<String, Error>)
        ensures
            final(self).same_setup(old(self)),
            final(self).journal() == old(self).journal().push(
                Event::ReadToString { path: path@, outcome: answer_of(r) },
            ),
    {
        let r = self.fs.read_to_string(path);
        proof {
            self.journal@ = self.journal@.push(
                Event::ReadToString { path: path@, outcome: answer_of(r) },
            );
        }
        r
    }
}

} // verus!
