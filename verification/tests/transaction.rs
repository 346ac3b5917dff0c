use link_store::{Error, FileSystem, GitOperations, UnlinkCommand};
use link_store::message::SelectionMode;
use std::cell::RefCell;
use std::rc::Rc;

const ROOT: &str = "/repo";
const STORE: &str = "/repo/.gitmind/links";

/// One store in memory, seen by both capabilities.
struct Store {
    present: bool,
    listing_error: Option<Error>,
    files: Vec<(String, Result<String, Error>)>,
    fail_staging_at: Option<usize>,
    fail_commit: bool,
    stagings: usize,
    log: Vec<String>,
}

impl Store {
    fn new() -> Store {
        Store {
            present: true,
            listing_error: None,
            files: Vec::new(),
            fail_staging_at: None,
            fail_commit: false,
            stagings: 0,
            log: Vec::new(),
        }
    }

    fn with(mut self, name: &str, content: &str) -> Store {
        self.files.push((format!("{}/{}", STORE, name), Ok(content.to_string())));
        self
    }

    fn with_unreadable(mut self, name: &str) -> Store {
        self.files.push((
            format!("{}/{}", STORE, name),
            Err(Error::IoError(format!("cannot read {}", name))),
        ));
        self
    }

    fn share(self) -> Rc<RefCell<Store>> {
        Rc::new(RefCell::new(self))
    }
}

struct Files(Rc<RefCell<Store>>);

struct Storage(Rc<RefCell<Store>>);

impl FileSystem for Files {
    fn path_exists(&self, path: &str) -> bool {
        let mut store = self.0.borrow_mut();
        store.log.push(format!("exists {}", path));
        (path == STORE && store.present) || store.files.iter().any(|f| f.0 == path)
    }

    fn read_dir(&self, path: &str) -> Result<Vec<String>, Error> {
        let mut store = self.0.borrow_mut();
        store.log.push(format!("read_dir {}", path));
        if let Some(e) = &store.listing_error {
            return Err(e.clone());
        }
        if path != STORE || !store.present {
            return Err(Error::IoError(format!("no directory {}", path)));
        }
        Ok(store.files.iter().map(|f| f.0.clone()).collect())
    }

    fn read_to_string(&self, path: &str) -> Result<String, Error> {
        let mut store = self.0.borrow_mut();
        store.log.push(format!("read {}", path));
        match store.files.iter().find(|f| f.0 == path) {
            Some(f) => f.1.clone(),
            None => Err(Error::IoError(format!("no file {}", path))),
        }
    }
}

impl GitOperations for Storage {
    fn remove(&self, working_dir: &str, path: &str) -> Result<(), Error> {
        let mut store = self.0.borrow_mut();
        store.stagings += 1;
        if store.fail_staging_at == Some(store.stagings) {
            store.log.push(format!("rm! {} {}", working_dir, path));
            return Err(Error::StorageError(format!("cannot stage {}", path)));
        }
        store.log.push(format!("rm {} {}", working_dir, path));
        store.files.retain(|f| f.0 != path);
        Ok(())
    }

    fn commit(&self, working_dir: &str, message: &str) -> Result<(), Error> {
        let mut store = self.0.borrow_mut();
        if store.fail_commit {
            store.log.push(format!("commit! {} {}", working_dir, message));
            return Err(Error::StorageError("cannot commit".to_string()));
        }
        store.log.push(format!("commit {} {}", working_dir, message));
        Ok(())
    }
}

fn command(store: &Rc<RefCell<Store>>) -> UnlinkCommand<Storage, Files> {
    match UnlinkCommand::new(ROOT, Storage(store.clone()), Files(store.clone())) {
        Ok(command) => command,
        Err(e) => panic!("a command is always made: {:?}", e),
    }
}

fn writes(store: &Rc<RefCell<Store>>) -> Vec<String> {
    store.borrow().log.iter().filter(|l| l.starts_with("rm") || l.starts_with("commit")).cloned().collect()
}

fn commits(store: &Rc<RefCell<Store>>) -> Vec<String> {
    store.borrow().log.iter().filter(|l| l.starts_with("commit")).cloned().collect()
}

fn names(store: &Rc<RefCell<Store>>) -> Vec<String> {
    store.borrow().files.iter().map(|f| f.0.clone()).collect()
}

fn path(name: &str) -> String {
    format!("{}/{}", STORE, name)
}

#[test]
fn new_never_fails() {
    let store = Store::new().share();
    assert!(UnlinkCommand::new("", Storage(store.clone()), Files(store.clone())).is_ok());
    assert!(UnlinkCommand::new(ROOT, Storage(store.clone()), Files(store.clone())).is_ok());
    assert!(store.borrow().log.is_empty());
}

#[test]
fn missing_store_removes_nothing() {
    let mut absent = Store::new();
    absent.present = false;
    let store = absent.share();
    let mut unlink = command(&store);
    assert_eq!(unlink.execute("a", "b", None), Ok(0));
    assert_eq!(unlink.execute_all_from("a", None), Ok(0));
    assert_eq!(unlink.execute_to("b", Some("X")), Ok(0));
    let asked = format!("exists {}", STORE);
    assert_eq!(store.borrow().log, vec![asked.clone(), asked.clone(), asked]);
}

#[test]
fn empty_store_removes_nothing() {
    let store = Store::new().share();
    let mut unlink = command(&store);
    assert_eq!(unlink.execute_all_from("a", None), Ok(0));
    assert_eq!(
        store.borrow().log,
        vec![format!("exists {}", STORE), format!("read_dir {}", STORE)]
    );
}

#[test]
fn all_from_counts_and_commits_once() {
    let store = Store::new()
        .with("1.link", "X: a -> b")
        .with("2.link", "Y: a -> c")
        .with("3.link", "X: d -> a")
        .with("4.link", "X: a -> a")
        .share();
    let mut unlink = command(&store);
    assert_eq!(unlink.execute_all_from("b", None), Ok(0));
    assert!(writes(&store).is_empty());
    assert_eq!(unlink.execute_all_from("a", None), Ok(3));
    assert_eq!(
        writes(&store),
        vec![
            format!("rm {} {}", ROOT, path("1.link")),
            format!("rm {} {}", ROOT, path("2.link")),
            format!("rm {} {}", ROOT, path("4.link")),
            format!("commit {} unlink: all from a (3 links)", ROOT),
        ]
    );
    assert_eq!(names(&store), vec![path("3.link")]);
}

#[test]
fn all_from_one_link_is_singular() {
    let store = Store::new().with("1.link", "X: a -> b").with("2.link", "X: b -> a").share();
    let mut unlink = command(&store);
    assert_eq!(unlink.execute_all_from("a", None), Ok(1));
    let made = commits(&store);
    assert_eq!(made.len(), 1);
    assert!(made[0].ends_with("(1 link)"));
    assert_eq!(made[0], format!("commit {} unlink: all from a (1 link)", ROOT));
}

#[test]
fn all_to_selects_by_target() {
    let store = Store::new()
        .with("1.link", "X: a -> b")
        .with("2.link", "Y: c -> b")
        .with("3.link", "X: b -> a")
        .share();
    let mut unlink = command(&store);
    assert_eq!(unlink.execute_to("b", None), Ok(2));
    assert_eq!(
        writes(&store),
        vec![
            format!("rm {} {}", ROOT, path("1.link")),
            format!("rm {} {}", ROOT, path("2.link")),
            format!("commit {} unlink: all to b (2 links)", ROOT),
        ]
    );
    assert_eq!(names(&store), vec![path("3.link")]);
}

#[test]
fn exact_pair_needs_both_ends() {
    let store = Store::new()
        .with("1.link", "X: a -> b")
        .with("2.link", "X: a -> c")
        .with("3.link", "X: c -> b")
        .with("4.link", "X: b -> a")
        .share();
    let mut unlink = command(&store);
    assert_eq!(unlink.execute("a", "b", None), Ok(1));
    assert_eq!(
        writes(&store),
        vec![
            format!("rm {} {}", ROOT, path("1.link")),
            format!("commit {} unlink: a -/-> b (1 link)", ROOT),
        ]
    );
    assert_eq!(names(&store), vec![path("2.link"), path("3.link"), path("4.link")]);
}

#[test]
fn type_filter_narrows() {
    let store = Store::new().with("x.link", "X: a -> b").with("y.link", "Y: a -> b").share();
    let mut unlink = command(&store);
    assert_eq!(unlink.execute("a", "b", Some("X")), Ok(1));
    assert_eq!(names(&store), vec![path("y.link")]);
    assert_eq!(
        writes(&store),
        vec![
            format!("rm {} {}", ROOT, path("x.link")),
            format!("commit {} unlink: a -/-> b (1 link)", ROOT),
        ]
    );
}

#[test]
fn type_filter_is_case_sensitive() {
    let store = Store::new().with("x.link", "X: a -> b").share();
    let mut unlink = command(&store);
    assert_eq!(unlink.execute("a", "b", Some("x")), Ok(0));
    assert_eq!(unlink.execute_all_from("A", None), Ok(0));
    assert!(writes(&store).is_empty());
}

#[test]
fn equal_links_in_two_files_are_two_records() {
    let store = Store::new().with("1.link", "X: a -> b").with("2.link", "X: a -> b").share();
    let mut unlink = command(&store);
    assert_eq!(unlink.execute("a", "b", Some("X")), Ok(2));
    assert_eq!(
        writes(&store),
        vec![
            format!("rm {} {}", ROOT, path("1.link")),
            format!("rm {} {}", ROOT, path("2.link")),
            format!("commit {} unlink: a -/-> b (2 links)", ROOT),
        ]
    );
}

#[test]
fn other_files_are_not_read() {
    let store = Store::new()
        .with("README", "not a link")
        .with("1.link", "X: a -> b")
        .with("notes.txt", "X: a -> b")
        .with(".link", "X: a -> b")
        .with("2.link.bak", "X: a -> b")
        .share();
    let mut unlink = command(&store);
    assert_eq!(unlink.execute_all_from("a", None), Ok(1));
    assert_eq!(
        store.borrow().log,
        vec![
            format!("exists {}", STORE),
            format!("read_dir {}", STORE),
            format!("read {}", path("1.link")),
            format!("rm {} {}", ROOT, path("1.link")),
            format!("commit {} unlink: all from a (1 link)", ROOT),
        ]
    );
}

#[test]
fn reads_come_before_writes() {
    let store = Store::new().with("1.link", "X: a -> b").with("2.link", "X: a -> c").share();
    let mut unlink = command(&store);
    assert_eq!(unlink.execute_all_from("a", None), Ok(2));
    assert_eq!(
        store.borrow().log,
        vec![
            format!("exists {}", STORE),
            format!("read_dir {}", STORE),
            format!("read {}", path("1.link")),
            format!("read {}", path("2.link")),
            format!("rm {} {}", ROOT, path("1.link")),
            format!("rm {} {}", ROOT, path("2.link")),
            format!("commit {} unlink: all from a (2 links)", ROOT),
        ]
    );
}

#[test]
fn malformed_file_fails_the_whole_removal() {
    let store = Store::new()
        .with("1.link", "X: a -> b")
        .with("2.link", "no link here")
        .with("3.link", "X: a -> c")
        .share();
    let mut unlink = command(&store);
    assert_eq!(unlink.execute_all_from("a", None), Err(Error::MalformedLink));
    assert_eq!(unlink.execute("a", "b", None), Err(Error::MalformedLink));
    assert_eq!(unlink.execute_to("zzz", Some("Q")), Err(Error::MalformedLink));
    assert!(writes(&store).is_empty());
    assert_eq!(names(&store).len(), 3);
}

#[test]
fn malformed_file_ends_the_listing() {
    let store = Store::new().with("1.link", "broken").with("2.link", "X: a -> b").share();
    let mut unlink = command(&store);
    assert_eq!(unlink.execute_all_from("a", None), Err(Error::MalformedLink));
    assert_eq!(
        store.borrow().log,
        vec![
            format!("exists {}", STORE),
            format!("read_dir {}", STORE),
            format!("read {}", path("1.link")),
        ]
    );
}

#[test]
fn unreadable_file_is_an_io_error() {
    let store = Store::new().with("1.link", "X: a -> b").with_unreadable("2.link").share();
    let mut unlink = command(&store);
    assert_eq!(
        unlink.execute_all_from("a", None),
        Err(Error::IoError("cannot read 2.link".to_string()))
    );
    assert!(writes(&store).is_empty());
}

#[test]
fn unlistable_store_is_an_io_error() {
    let mut broken = Store::new().with("1.link", "X: a -> b");
    broken.listing_error = Some(Error::IoError("denied".to_string()));
    let store = broken.share();
    let mut unlink = command(&store);
    assert_eq!(unlink.execute_to("b", None), Err(Error::IoError("denied".to_string())));
    assert_eq!(
        store.borrow().log,
        vec![format!("exists {}", STORE), format!("read_dir {}", STORE)]
    );
}

fn staging_fails_at(k: usize) {
    let mut failing = Store::new()
        .with("1.link", "X: a -> b")
        .with("2.link", "X: a -> c")
        .with("3.link", "X: a -> d");
    failing.fail_staging_at = Some(k);
    let store = failing.share();
    let mut unlink = command(&store);
    let failed = format!("{}.link", k);
    assert_eq!(
        unlink.execute_all_from("a", None),
        Err(Error::StorageError(format!("cannot stage {}", path(&failed))))
    );
    assert!(commits(&store).is_empty());
    let made = writes(&store);
    assert_eq!(made.len(), k);
    for i in 1..k {
        assert_eq!(made[i - 1], format!("rm {} {}", ROOT, path(&format!("{}.link", i))));
    }
    assert_eq!(made[k - 1], format!("rm! {} {}", ROOT, path(&failed)));
    assert_eq!(names(&store).len(), 3 - (k - 1));
}

#[test]
fn staging_failure_at_first_call() {
    staging_fails_at(1);
}

#[test]
fn staging_failure_at_second_call() {
    staging_fails_at(2);
}

#[test]
fn staging_failure_at_last_call() {
    staging_fails_at(3);
}

#[test]
fn commit_failure_leaves_all_staged() {
    let mut failing = Store::new().with("1.link", "X: a -> b").with("2.link", "X: a -> c");
    failing.fail_commit = true;
    let store = failing.share();
    let mut unlink = command(&store);
    assert_eq!(
        unlink.execute_all_from("a", None),
        Err(Error::StorageError("cannot commit".to_string()))
    );
    assert_eq!(
        writes(&store),
        vec![
            format!("rm {} {}", ROOT, path("1.link")),
            format!("rm {} {}", ROOT, path("2.link")),
            format!("commit! {} unlink: all from a (2 links)", ROOT),
        ]
    );
    assert!(names(&store).is_empty());
}

#[test]
fn second_removal_finds_nothing() {
    let store = Store::new()
        .with("1.link", "X: a -> b")
        .with("2.link", "Y: a -> c")
        .with("3.link", "X: c -> a")
        .share();
    let mut unlink = command(&store);
    assert_eq!(unlink.execute_all_from("a", None), Ok(2));
    assert_eq!(commits(&store).len(), 1);
    assert_eq!(unlink.execute_all_from("a", None), Ok(0));
    assert_eq!(commits(&store).len(), 1);
    assert_eq!(writes(&store).len(), 3);
    assert_eq!(names(&store), vec![path("3.link")]);
}

#[test]
fn ten_links_are_counted_in_decimal() {
    let mut many = Store::new();
    for i in 0..12 {
        many = many.with(&format!("{}.link", i), "X: a -> b");
    }
    let store = many.share();
    let mut unlink = command(&store);
    assert_eq!(unlink.execute("a", "b", None), Ok(12));
    assert_eq!(commits(&store), vec![format!("commit {} unlink: a -/-> b (12 links)", ROOT)]);
}

#[test]
fn remove_runs_each_mode() {
    let store = Store::new()
        .with("1.link", "X: a -> b")
        .with("2.link", "X: a -> c")
        .with("3.link", "X: d -> c")
        .share();
    let mut unlink = command(&store);
    assert_eq!(unlink.remove(SelectionMode::ExactPair { source: "a", target: "b" }, None), Ok(1));
    assert_eq!(unlink.remove(SelectionMode::AllTo { target: "c" }, Some("Y")), Ok(0));
    assert_eq!(unlink.remove(SelectionMode::AllTo { target: "c" }, Some("X")), Ok(2));
    assert_eq!(unlink.remove(SelectionMode::AllFrom { source: "a" }, None), Ok(0));
    assert_eq!(
        commits(&store),
        vec![
            format!("commit {} unlink: a -/-> b (1 link)", ROOT),
            format!("commit {} unlink: all to c (2 links)", ROOT),
        ]
    );
}

#[test]
fn list_candidates_reads_every_link_file() {
    let store = Store::new()
        .with("1.link", "X: a -> b")
        .with("notes.txt", "nothing")
        .with("2.link", "Y: c -> d")
        .share();
    let mut unlink = command(&store);
    let listed = match unlink.list_candidates() {
        Ok(listed) => listed,
        Err(e) => panic!("the store can be listed: {:?}", e),
    };
    assert_eq!(listed.len(), 2);
    assert_eq!(listed[0].path, path("1.link"));
    assert_eq!(listed[0].link.source, "a");
    assert_eq!(listed[0].link.target, "b");
    assert_eq!(listed[0].link.link_type, "X");
    assert_eq!(listed[1].path, path("2.link"));
    assert_eq!(listed[1].link.link_type, "Y");
    assert!(writes(&store).is_empty());
}

#[test]
fn list_candidates_of_a_missing_store_is_empty() {
    let mut absent = Store::new();
    absent.present = false;
    let store = absent.share();
    let mut unlink = command(&store);
    assert_eq!(unlink.list_candidates(), Ok(Vec::new()));
}

#[test]
fn list_candidates_fails_on_one_bad_file() {
    let store = Store::new().with("1.link", "X: a -> b").with("2.link", "X: a").share();
    let mut unlink = command(&store);
    assert_eq!(unlink.list_candidates(), Err(Error::MalformedLink));
}
