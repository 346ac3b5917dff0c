//! Which links a removal selects.

use crate::link::{Link, LinkView, StoredLinkView};
use vstd::prelude::*;
use vstd::string::*;

verus! {

/// What a link must agree with to be selected. A field that is absent
/// accepts every link.
#[derive(Debug, PartialEq, Eq)]
pub struct SelectionCriteria {
    pub source: Option<String>,
    pub target: Option<String>,
    pub link_type: Option<String>,
}

/// Selection criteria as a mathematical value.
pub ghost struct CriteriaView {
    pub source: Option<Seq<char>>,
    pub target: Option<Seq<char>>,
    pub link_type: Option<Seq<char>>,
}

/// The characters of an optional string.
pub open spec fn text_of(field: Option<String>) -> Option<Seq<char>> {
    match field {
        Some(s) => Some(s@),
        None => None,
    }
}

/// The characters of an optional string slice.
pub open spec fn slice_of(field: Option<&str>) -> Option<Seq<char>> {
    match field {
        Some(s) => Some(s@),
        None => None,
    }
}

impl View for SelectionCriteria {
    type V = CriteriaView;

    open spec fn view(&self) -> CriteriaView {
        CriteriaView {
            source: text_of(self.source),
            target: text_of(self.target),
            link_type: text_of(self.link_type),
        }
    }
}

/// Whether the ends of `link` agree with the ends that `criteria` names.
pub open spec fn ends_agree(criteria: CriteriaView, link: LinkView) -> bool {
    match (criteria.source, criteria.target) {
        (Some(s), Some(t)) => link.source == s && link.target == t,
        (Some(s), None) => link.source == s,
        (None, Some(t)) => link.target == t,
        (None, None) => true,
    }
}

/// Whether the type of `link` is the one that `criteria` names, if it names
/// one.
pub open spec fn type_agrees(criteria: CriteriaView, link: LinkView) -> bool {
    match criteria.link_type {
        Some(t) => link.link_type == t,
        None => true,
    }
}

/// Whether `criteria` selects `link`: its ends agree, and so does its type.
pub open spec fn selects(criteria: CriteriaView, link: LinkView) -> bool {
    ends_agree(criteria, link) && type_agrees(criteria, link)
}

/// The records that `criteria` selects among `records`, in their order.
pub open spec fn selected(records: Seq<StoredLinkView>, criteria: CriteriaView) -> Seq<
    StoredLinkView,
> {
    records.filter(|record: StoredLinkView| selects(criteria, record.link))
}

/// The records that `criteria` leaves among `records`, in their order.
pub open spec fn remaining(records: Seq<StoredLinkView>, criteria: CriteriaView) -> Seq<
    StoredLinkView,
> {
    records.filter(|record: StoredLinkView| !selects(criteria, record.link))
}

/// Criteria that name nothing select every record.
pub proof fn lemma_everything_selected(records: Seq<StoredLinkView>, criteria: CriteriaView)
    requires
        criteria.source is None,
        criteria.target is None,
        criteria.link_type is None,
    ensures
        selected(records, criteria) == records,
    decreases records.len(),
{
    let chooses = |record: StoredLinkView| selects(criteria, record.link);
    if records.len() == 0 {
        records.lemma_filter_len(chooses);
        assert(selected(records, criteria) =~= records);
    } else {
        let earlier = records.drop_last();
        lemma_everything_selected(earlier, criteria);
        assert(earlier.push(records.last()) =~= records);
        earlier.lemma_filter_push(records.last(), chooses);
    }
}

/// An owned copy of an optional string slice.
fn owned(field: Option<&str>) -> (r: Option<String>)
    ensures
        text_of(r) == slice_of(field),
{
    match field {
        Some(s) => Some(String::from_str(s)),
        None => None,
    }
}

/// Whether `field` is absent or holds exactly the characters of `value`.
fn accepts(field: &Option<String>, value: &String) -> (r: bool)
    ensures
        r == match text_of(*field) {
            Some(s) => value@ == s,
            None => true,
        },
{
    match field {
        Some(s) => *value == *s,
        None => true,
    }
}

impl SelectionCriteria {
    /// The criteria with the given fields.
    pub fn new(source: Option<&str>, target: Option<&str>, link_type: Option<&str>) -> (r: Self)
        ensures
            r@ == (CriteriaView {
                source: slice_of(source),
                target: slice_of(target),
                link_type: slice_of(link_type),
            }),
    {
        SelectionCriteria {
            source: owned(source),
            target: owned(target),
            link_type: owned(link_type),
        }
    }

    /// Whether these criteria select `link`.
    pub fn matches(&self, link: &Link) -> (r: bool)
        ensures
            r == selects(self@, link@),
    {
        let ends = accepts(&self.source, &link.source) && accepts(&self.target, &link.target);
        let kind = accepts(&self.link_type, &link.link_type);
        ends && kind
    }
}

/// Whether `criteria` select `link`.
pub fn matches(link: &Link, criteria: &SelectionCriteria) -> (r: bool)
    ensures
        r == selects(criteria@, link@),
{
    criteria.matches(link)
}

} // verus!
