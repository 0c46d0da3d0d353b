//! Why an action was rejected. `apply` returning a typed error is the
//! legality oracle — there is no `legal-actions` because the action space
//! (free-text labels) is unbounded.

use vstd::prelude::*;

use crate::ids::TagId;

verus! {

/// Every way `apply` or a query can refuse.
#[derive(Debug, Clone, PartialEq, Eq)]
pub enum FolkError {
    /// The referenced tag does not exist.
    UnknownTag(TagId),
    /// The label is empty after normalization; payload is the label as given.
    InvalidLabel(String),
    /// Another tag already owns this label or alias; payload is that tag.
    DuplicateLabel(TagId),
    /// The edit would make the vocabulary cyclic.
    WouldCycle,
    /// A structural edit, or an untag of another actor's binding, by a
    /// non-curator.
    NotAuthorized,
    /// Retire refused: the tag still has bindings or children.
    TagInUse(TagId),
    /// Merging a tag into itself.
    SelfMerge,
    /// Untag of a binding that does not exist.
    NotBound,
    /// Remove-parent / remove-alias of an edge or alias that does not exist.
    NotPresent,
}

/// A rejection, as values.
pub enum FolkErrorView {
    UnknownTag(u64),
    InvalidLabel(Seq<char>),
    DuplicateLabel(u64),
    WouldCycle,
    NotAuthorized,
    TagInUse(u64),
    SelfMerge,
    NotBound,
    NotPresent,
}

impl View for FolkError {
    type V = FolkErrorView;

    open spec fn view(&self) -> FolkErrorView {
        match self {
            FolkError::UnknownTag(t) => FolkErrorView::UnknownTag(t.0),
            FolkError::InvalidLabel(l) => FolkErrorView::InvalidLabel(l@),
            FolkError::DuplicateLabel(t) => FolkErrorView::DuplicateLabel(t.0),
            FolkError::WouldCycle => FolkErrorView::WouldCycle,
            FolkError::NotAuthorized => FolkErrorView::NotAuthorized,
            FolkError::TagInUse(t) => FolkErrorView::TagInUse(t.0),
            FolkError::SelfMerge => FolkErrorView::SelfMerge,
            FolkError::NotBound => FolkErrorView::NotBound,
            FolkError::NotPresent => FolkErrorView::NotPresent,
        }
    }
}

} // verus!
