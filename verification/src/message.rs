//! The messages under which removals are committed.

use crate::criteria::{slice_of, CriteriaView};
use crate::text::{decimal, decimal_string};
use vstd::prelude::*;
use vstd::string::*;

verus! {

/// What a removal is asked to remove.
#[derive(Debug, Clone, Copy, PartialEq, Eq)]
pub enum SelectionMode<'a> {
    /// The links from `source` to `target`.
    ExactPair { source: &'a str, target: &'a str },
    /// All links from `source`.
    AllFrom { source: &'a str },
    /// All links to `target`.
    AllTo { target: &'a str },
}

/// A selection mode as a mathematical value.
pub ghost enum ModeView {
    /// The links from `source` to `target`.
    ExactPair { source: Seq<char>, target: Seq<char> },
    /// All links from `source`.
    AllFrom { source: Seq<char> },
    /// All links to `target`.
    AllTo { target: Seq<char> },
}

/// The count of removed links as it closes a message: in brackets, with
/// "link" for one and "links" for any other number.
pub open spec fn tally(n: nat) -> Seq<char> {
    " ("@ + decimal(n) + (if n == 1 {
        " link)"@
    } else {
        " links)"@
    })
}

/// The message for the removal of `n` links from `source` to `target`.
pub open spec fn exact_pair_text(source: Seq<char>, target: Seq<char>, n: nat) -> Seq<char> {
    "unlink: "@ + source + " -/-> "@ + target + tally(n)
}

/// The message for the removal of all `n` links from `source`.
pub open spec fn all_from_text(source: Seq<char>, n: nat) -> Seq<char> {
    "unlink: all from "@ + source + tally(n)
}

/// The message for the removal of all `n` links to `target`.
pub open spec fn all_to_text(target: Seq<char>, n: nat) -> Seq<char> {
    "unlink: all to "@ + target + tally(n)
}

impl ModeView {
    /// The source that the mode names, if it names one.
    pub open spec fn source(self) -> Option<Seq<char>> {
        match self {
            ModeView::ExactPair { source, target } => Some(source),
            ModeView::AllFrom { source } => Some(source),
            ModeView::AllTo { target } => None,
        }
    }

    /// The target that the mode names, if it names one.
    pub open spec fn target(self) -> Option<Seq<char>> {
        match self {
            ModeView::ExactPair { source, target } => Some(target),
            ModeView::AllFrom { source } => None,
            ModeView::AllTo { target } => Some(target),
        }
    }

    /// The criteria by which the removal selects, with the type filter
    /// `link_type`.
    pub open spec fn criteria(self, link_type: Option<Seq<char>>) -> CriteriaView {
        CriteriaView { source: self.source(), target: self.target(), link_type }
    }

    /// The message under which the removal of `n` links is committed.
    pub open spec fn message(self, n: nat) -> Seq<char> {
        match self {
            ModeView::ExactPair { source, target } => exact_pair_text(source, target, n),
            ModeView::AllFrom { source } => all_from_text(source, n),
            ModeView::AllTo { target } => all_to_text(target, n),
        }
    }
}

impl<'a> View for SelectionMode<'a> {
    type V = ModeView;

    open spec fn view(&self) -> ModeView {
        match *self {
            SelectionMode::ExactPair { source, target } => ModeView::ExactPair {
                source: source@,
                target: target@,
            },
            SelectionMode::AllFrom { source } => ModeView::AllFrom { source: source@ },
            SelectionMode::AllTo { target } => ModeView::AllTo { target: target@ },
        }
    }
}

impl<'a> SelectionMode<'a> {
    /// The source that the mode names, if it names one.
    pub fn source(&self) -> (r: Option<&'a str>)
        ensures
            slice_of(r) == self@.source(),
    {
        match *self {
            SelectionMode::ExactPair { source, target } => Some(source),
            SelectionMode::AllFrom { source } => Some(source),
            SelectionMode::AllTo { target } => None,
        }
    }

    /// The target that the mode names, if it names one.
    pub fn target(&self) -> (r: Option<&'a str>)
        ensures
            slice_of(r) == self@.target(),
    {
        match *self {
            SelectionMode::ExactPair { source, target } => Some(target),
            SelectionMode::AllFrom { source } => None,
            SelectionMode::AllTo { target } => Some(target),
        }
    }

    /// The message under which the removal of `count` links is committed.
    pub fn message(&self, count: usize) -> (message: String)
        ensures
            message@ == self@.message(count as nat),
    {
        match *self {
            SelectionMode::ExactPair { source, target } => exact_pair_message(source, target, count),
            SelectionMode::AllFrom { source } => all_from_message(source, count),
            SelectionMode::AllTo { target } => all_to_message(target, count),
        }
    }
}

/// Closes `message` with the count of removed links.
fn append_tally(message: &mut String, count: usize)
    ensures
        final(message)@ == old(message)@ + tally(count as nat),
{
    let number = decimal_string(count);
    message.append(" (");
    message.append(number.as_str());
    if count == 1 {
        message.append(" link)");
    } else {
        message.append(" links)");
    }
    assert(message@ =~= old(message)@ + tally(count as nat));
}

/// The message for the removal of `count` links from `source` to `target`.
pub fn exact_pair_message(source: &str, target: &str, count: usize) -> (message: String)
    ensures
        message@ == exact_pair_text(source@, target@, count as nat),
{
    let mut message = String::from_str("unlink: ");
    message.append(source);
    message.append(" -/-> ");
    message.append(target);
    append_tally(&mut message, count);
    message
}

/// The message for the removal of all `count` links from `source`.
pub fn all_from_message(source: &str, count: usize) -> (message: String)
    ensures
        message@ == all_from_text(source@, count as nat),
{
    let mut message = String::from_str("unlink: all from ");
    message.append(source);
    append_tally(&mut message, count);
    message
}

/// The message for the removal of all `count` links to `target`.
pub fn all_to_message(target: &str, count: usize) -> (message: String)
    ensures
        message@ == all_to_text(target@, count as nat),
{
    let mut message = String::from_str("unlink: all to ");
    message.append(target);
    append_tally(&mut message, count);
    message
}

} // verus!
