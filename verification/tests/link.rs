use link_store::link::is_link_file;
use link_store::message::{all_from_message, all_to_message, exact_pair_message, SelectionMode};
use link_store::text::{chars_of, decimal_string, find, matches_at};
use link_store::{Error, GitMindContext, Link, SelectionCriteria};

fn link(link_type: &str, source: &str, target: &str) -> Link {
    Link {
        source: source.to_string(),
        target: target.to_string(),
        link_type: link_type.to_string(),
    }
}

#[test]
fn decode_reads_the_three_fields() {
    assert_eq!(
        Link::decode("CROSS_REF: README.md -> docs/ARCHITECTURE.md"),
        Ok(link("CROSS_REF", "README.md", "docs/ARCHITECTURE.md"))
    );
}

#[test]
fn decode_accepts_empty_fields() {
    assert_eq!(Link::decode(":  -> "), Ok(link("", "", "")));
    assert_eq!(Link::decode("X:  -> b"), Ok(link("X", "", "b")));
    assert_eq!(Link::decode("X: a -> "), Ok(link("X", "a", "")));
}

#[test]
fn decode_ends_the_type_at_the_first_mark() {
    assert_eq!(Link::decode("a: b: c -> d"), Ok(link("a", "b: c", "d")));
}

#[test]
fn decode_ends_the_source_at_the_first_arrow() {
    assert_eq!(Link::decode("X: a -> b -> c"), Ok(link("X", "a", "b -> c")));
}

#[test]
fn decode_wants_the_arrow_after_the_mark() {
    assert_eq!(Link::decode("a -> b: c"), Err(Error::MalformedLink));
    assert_eq!(Link::decode("a -> b: c -> d"), Ok(link("a -> b", "c", "d")));
}

#[test]
fn decode_rejects_what_is_no_link() {
    assert_eq!(Link::decode(""), Err(Error::MalformedLink));
    assert_eq!(Link::decode("no link here"), Err(Error::MalformedLink));
    assert_eq!(Link::decode("X: a"), Err(Error::MalformedLink));
    assert_eq!(Link::decode("X: a -> b\n"), Ok(link("X", "a", "b\n")));
    assert_eq!(Link::decode("X:a -> b"), Err(Error::MalformedLink));
    assert_eq!(Link::decode("X: a->b"), Err(Error::MalformedLink));
    assert_eq!(Link::decode("X: a ->"), Err(Error::MalformedLink));
}

#[test]
fn decode_counts_characters_not_bytes() {
    assert_eq!(
        Link::decode("r\u{e9}f: caf\u{e9}.md -> na\u{ef}ve.md"),
        Ok(link("r\u{e9}f", "caf\u{e9}.md", "na\u{ef}ve.md"))
    );
}

#[test]
fn encode_writes_the_canonical_text() {
    assert_eq!(link("X", "a", "b").encode(), "X: a -> b");
    assert_eq!(link("", "", "").encode(), ":  -> ");
}

#[test]
fn decode_then_encode_gives_the_text_back() {
    for text in ["X: a -> b", "a: b: c -> d", "X: a -> b -> c", ":  -> ", "a -> b: c -> d"] {
        match Link::decode(text) {
            Ok(decoded) => assert_eq!(decoded.encode(), text),
            Err(e) => panic!("{} holds a link: {:?}", text, e),
        }
    }
}

#[test]
fn encode_then_decode_gives_the_link_back() {
    for l in [link("X", "a", "b"), link("DEPENDS_ON", "src/a.rs", "src/b.rs"), link("", "", "x -> y")] {
        assert_eq!(Link::decode(&l.encode()), Ok(l));
    }
}

#[test]
fn an_ambiguous_link_does_not_come_back() {
    let odd = link("X", "a ->", "b");
    assert_eq!(odd.encode(), "X: a -> -> b");
    assert_eq!(Link::decode(&odd.encode()), Ok(link("X", "a", "-> b")));
}

#[test]
fn matches_follows_the_table() {
    let l = link("X", "a", "b");
    let cases = [
        (Some("a"), Some("b"), true),
        (Some("a"), Some("c"), false),
        (Some("c"), Some("b"), false),
        (Some("b"), Some("a"), false),
        (Some("a"), None, true),
        (Some("b"), None, false),
        (None, Some("b"), true),
        (None, Some("a"), false),
        (None, None, true),
    ];
    for (source, target, ends) in cases {
        assert_eq!(link_store::criteria::matches(&l, &SelectionCriteria::new(source, target, None)), ends);
        assert_eq!(link_store::criteria::matches(&l, &SelectionCriteria::new(source, target, Some("X"))), ends);
        assert_eq!(link_store::criteria::matches(&l, &SelectionCriteria::new(source, target, Some("Y"))), false);
        assert_eq!(link_store::criteria::matches(&l, &SelectionCriteria::new(source, target, Some("x"))), false);
        assert_eq!(SelectionCriteria::new(source, target, None).matches(&l), ends);
    }
}

#[test]
fn criteria_hold_what_they_were_given() {
    let criteria = SelectionCriteria::new(Some("a"), None, Some("X"));
    assert_eq!(criteria.source, Some("a".to_string()));
    assert_eq!(criteria.target, None);
    assert_eq!(criteria.link_type, Some("X".to_string()));
}

#[test]
fn link_files_are_known_by_their_extension() {
    assert!(is_link_file("a.link"));
    assert!(is_link_file("/repo/.gitmind/links/0f3a.link"));
    assert!(is_link_file("a.b.link"));
    assert!(is_link_file("..link"));
    assert!(!is_link_file(".link"));
    assert!(!is_link_file("/repo/.gitmind/links/.link"));
    assert!(!is_link_file("link"));
    assert!(!is_link_file(""));
    assert!(!is_link_file("a.link.bak"));
    assert!(!is_link_file("a.LINK"));
    assert!(!is_link_file("a.txt"));
    assert!(!is_link_file("alink"));
}

#[test]
fn messages_name_the_removal_and_the_count() {
    assert_eq!(exact_pair_message("a.md", "b.md", 1), "unlink: a.md -/-> b.md (1 link)");
    assert_eq!(exact_pair_message("a.md", "b.md", 2), "unlink: a.md -/-> b.md (2 links)");
    assert_eq!(exact_pair_message("a.md", "b.md", 0), "unlink: a.md -/-> b.md (0 links)");
    assert_eq!(all_from_message("a.md", 1), "unlink: all from a.md (1 link)");
    assert_eq!(all_from_message("a.md", 11), "unlink: all from a.md (11 links)");
    assert_eq!(all_to_message("b.md", 1), "unlink: all to b.md (1 link)");
    assert_eq!(all_to_message("b.md", 100), "unlink: all to b.md (100 links)");
}

#[test]
fn a_mode_names_its_ends_and_its_message() {
    let pair = SelectionMode::ExactPair { source: "a", target: "b" };
    assert_eq!(pair.source(), Some("a"));
    assert_eq!(pair.target(), Some("b"));
    assert_eq!(pair.message(3), "unlink: a -/-> b (3 links)");
    let from = SelectionMode::AllFrom { source: "a" };
    assert_eq!(from.source(), Some("a"));
    assert_eq!(from.target(), None);
    assert_eq!(from.message(1), "unlink: all from a (1 link)");
    let to = SelectionMode::AllTo { target: "b" };
    assert_eq!(to.source(), None);
    assert_eq!(to.target(), Some("b"));
    assert_eq!(to.message(20), "unlink: all to b (20 links)");
}

#[test]
fn numbers_are_written_in_decimal() {
    assert_eq!(decimal_string(0), "0");
    assert_eq!(decimal_string(7), "7");
    assert_eq!(decimal_string(10), "10");
    assert_eq!(decimal_string(1234567890), "1234567890");
    assert_eq!(decimal_string(usize::MAX), usize::MAX.to_string());
}

#[test]
fn find_gives_the_first_place() {
    let text = chars_of("ab -> cd -> e");
    let arrow = chars_of(" -> ");
    assert_eq!(text.len(), 13);
    assert_eq!(find(&text, &arrow, 0), Some(2));
    assert_eq!(find(&text, &arrow, 2), Some(2));
    assert_eq!(find(&text, &arrow, 3), Some(8));
    assert_eq!(find(&text, &arrow, 8), Some(8));
    assert_eq!(find(&text, &arrow, 9), None);
    assert_eq!(find(&text, &arrow, 100), None);
    assert_eq!(find(&text, &chars_of(""), 13), Some(13));
    assert_eq!(find(&text, &chars_of(""), 14), None);
    assert_eq!(find(&chars_of("ab"), &chars_of("abc"), 0), None);
    assert!(matches_at(&text, &arrow, 8));
    assert!(!matches_at(&text, &arrow, 7));
}

#[test]
fn the_store_lies_under_the_root() {
    let context = GitMindContext::new("/repo");
    assert_eq!(context.working_dir, "/repo");
    assert_eq!(context.links_dir(), "/repo/.gitmind/links");
    assert_eq!(GitMindContext::new("").links_dir(), "/.gitmind/links");
}

#[test]
fn errors_can_be_cloned_and_compared() {
    let errors = [
        Error::MalformedLink,
        Error::IoError("denied".to_string()),
        Error::StorageError("locked".to_string()),
    ];
    for e in errors.iter() {
        assert_eq!(e.clone(), *e);
    }
    assert_ne!(errors[1], Error::IoError("other".to_string()));
    assert_ne!(errors[1], Error::StorageError("denied".to_string()));
}
