//! Links, their canonical text, and the files that hold them.

use crate::error::Error;
use crate::text::{chars_of, find, lemma_first_is_position, lemma_position_is_first, matches_at, occurs, occurs_at, position};
use vstd::prelude::*;
use vstd::string::*;

verus! {

/// A relation from a source to a target, with a type label.
///
/// The three fields are opaque identifiers: they are compared character by
/// character and never normalised.
#[derive(Debug, PartialEq, Eq)]
pub struct Link {
    pub source: String,
    pub target: String,
    pub link_type: String,
}

/// A link as a mathematical value.
pub ghost struct LinkView {
    pub source: Seq<char>,
    pub target: Seq<char>,
    pub link_type: Seq<char>,
}

impl View for Link {
    type V = LinkView;

    open spec fn view(&self) -> LinkView {
        LinkView { source: self.source@, target: self.target@, link_type: self.link_type@ }
    }
}

/// What stands between the type label and the source in canonical text.
pub open spec fn type_mark() -> Seq<char> {
    ": "@
}

/// What stands between the source and the target in canonical text.
pub open spec fn arrow() -> Seq<char> {
    " -> "@
}

/// The canonical text of a link: the type label, the mark, the source, the
/// arrow, the target.
pub open spec fn canonical_form(link: LinkView) -> Seq<char> {
    link.link_type + type_mark() + link.source + arrow() + link.target
}

/// The link that `text` is the canonical form of, if it is one.
///
/// The type label ends at the first mark, the source at the first arrow after
/// that mark, and the target is all that follows. A text without a mark, or
/// without an arrow after its first mark, holds no link.
pub open spec fn decoded(text: Seq<char>) -> Option<LinkView> {
    match position(text, type_mark(), 0) {
        None => None,
        Some(i) => {
            let start = i + type_mark().len();
            match position(text, arrow(), start) {
                None => None,
                Some(j) => Some(
                    LinkView {
                        link_type: text.subrange(0, i),
                        source: text.subrange(start, j),
                        target: text.subrange(j + arrow().len(), text.len() as int),
                    },
                ),
            }
        },
    }
}

/// A link whose canonical text can be read in one way only: the type label
/// holds no mark, and no arrow begins inside the source.
pub open spec fn is_unambiguous(link: LinkView) -> bool {
    &&& !occurs(link.link_type, type_mark())
    &&& forall|k: int| 0 <= k < link.source.len() ==> !occurs_at(link.source + arrow(), arrow(), k)
}

/// Decoding loses nothing: a text that holds a link is the canonical form of
/// that link.
pub proof fn lemma_decode_then_encode(text: Seq<char>)
    requires
        decoded(text) is Some,
    ensures
        canonical_form(decoded(text)->Some_0) == text,
{
    lemma_position_is_first(text, type_mark(), 0);
    let i = position(text, type_mark(), 0)->Some_0;
    let start = i + type_mark().len();
    lemma_position_is_first(text, arrow(), start);
    let j = position(text, arrow(), start)->Some_0;
    assert(canonical_form(decoded(text)->Some_0) =~= text);
}

/// Decoding is total on well-formed text: the canonical form of an
/// unambiguous link decodes to that link.
pub proof fn lemma_encode_then_decode(link: LinkView)
    requires
        is_unambiguous(link),
    ensures
        decoded(canonical_form(link)) == Some(link),
{
    reveal_strlit(": ");
    reveal_strlit(" -> ");
    let text = canonical_form(link);
    let i = link.link_type.len() as int;
    let start = i + 2;
    let j = start + link.source.len();
    assert(text.subrange(i, i + 2) =~= type_mark());
    assert forall|k: int| 0 <= k < i implies !occurs_at(text, type_mark(), k) by {
        if occurs_at(text, type_mark(), k) {
            if k + 2 <= i {
                assert(link.link_type.subrange(k, k + 2) =~= text.subrange(k, k + 2));
                assert(occurs_at(link.link_type, type_mark(), k));
            } else {
                assert(text.subrange(k, k + 2)[1] == text[k + 1]);
                assert(text[k + 1] == ':');
            }
        }
    }
    lemma_first_is_position(text, type_mark(), 0, i);
    assert(text.subrange(j, j + 4) =~= arrow());
    assert forall|k: int| start <= k < j implies !occurs_at(text, arrow(), k) by {
        if occurs_at(text, arrow(), k) {
            let tail = link.source + arrow();
            assert(tail.subrange(k - start, k - start + 4) =~= text.subrange(k, k + 4));
            assert(occurs_at(tail, arrow(), k - start));
        }
    }
    lemma_first_is_position(text, arrow(), start, j);
    let found = decoded(text)->Some_0;
    assert(found.link_type =~= link.link_type);
    assert(found.source =~= link.source);
    assert(found.target =~= link.target);
}

impl Link {
    /// Reads a link from its canonical text, or reports that the text holds
    /// none.
    pub fn decode(text: &str) -> (r: Result<Link, Error>)
        ensures
            match decoded(text@) {
                Some(link) => r is Ok && r->Ok_0@ == link,
                None => r == Err::<Link, Error>(Error::MalformedLink),
            },
    {
        let chars = chars_of(text);
        let mark = chars_of(": ");
        let arrow = chars_of(" -> ");
        let n: usize = chars.len();
        proof {
            lemma_position_is_first(text@, type_mark(), 0);
        }
        match find(&chars, &mark, 0) {
            None => Err(Error::MalformedLink),
            Some(i) => {
                assert(occurs_at(text@, type_mark(), i as int));
                let start: usize = i + mark.len();
                proof {
                    lemma_position_is_first(text@, self::arrow(), start as int);
                }
                match find(&chars, &arrow, start) {
                    None => Err(Error::MalformedLink),
                    Some(j) => {
                        assert(occurs_at(text@, self::arrow(), j as int));
                        let link_type = String::from_str(text.substring_char(0, i));
                        let source = String::from_str(text.substring_char(start, j));
                        let target = String::from_str(
                            text.substring_char(j + arrow.len(), n),
                        );
                        Ok(Link { source, target, link_type })
                    },
                }
            },
        }
    }

    /// Writes the link in canonical text.
    pub fn encode(&self) -> (text: String)
        ensures
            text@ == canonical_form(self@),
    {
        let mut text = self.link_type.clone();
        text.append(": ");
        text.append(self.source.as_str());
        text.append(" -> ");
        text.append(self.target.as_str());
        text
    }
}

/// A link together with the path of the file it was read from.
///
/// The path alone identifies a record: two files may hold the same link, and
/// each is a record of its own.
#[derive(Debug, PartialEq, Eq)]
pub struct StoredLink {
    pub link: Link,
    pub path: String,
}

/// A stored link as a mathematical value.
pub ghost struct StoredLinkView {
    pub link: LinkView,
    pub path: Seq<char>,
}

impl View for StoredLink {
    type V = StoredLinkView;

    open spec fn view(&self) -> StoredLinkView {
        StoredLinkView { link: self.link@, path: self.path@ }
    }
}

/// The records of `links`, as mathematical values.
pub open spec fn records_of(links: Seq<StoredLink>) -> Seq<StoredLinkView> {
    links.map_values(|stored: StoredLink| stored@)
}

/// The paths of `records`, in order.
pub open spec fn paths_of(records: Seq<StoredLinkView>) -> Seq<Seq<char>> {
    records.map_values(|record: StoredLinkView| record.path)
}

/// The extension that marks a file of the store as a link file.
pub open spec fn link_extension() -> Seq<char> {
    ".link"@
}

/// Whether `path` names a link file: it ends in the link extension, and the
/// file's name is more than the extension alone.
pub open spec fn is_link_path(path: Seq<char>) -> bool {
    let stem = path.len() - link_extension().len();
    &&& stem >= 1
    &&& occurs_at(path, link_extension(), stem)
    &&& path[stem - 1] != '/'
}

/// Whether `path` names a link file.
pub fn is_link_file(path: &str) -> (r: bool)
    ensures
        r == is_link_path(path@),
{
    let chars = chars_of(path);
    let extension = chars_of(".link");
    let n: usize = chars.len();
    let m: usize = extension.len();
    if n <= m {
        return false;
    }
    matches_at(&chars, &extension, n - m) && chars[n - m - 1] != '/'
}

} // verus!
