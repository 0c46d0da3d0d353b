//! Inputs to [`Folksonomy::apply`](crate::Folksonomy::apply).

use vstd::prelude::*;

use crate::ids::{ActorId, ItemId, TagId};
use crate::state::{ids_view, Visibility};

verus! {

/// Every transition the kernel accepts.
///
/// *Open* actions may be performed by any actor. *Curated* actions require a
/// curator when [`Folksonomy::curators`](crate::Folksonomy::curators) is
/// non-empty and are open otherwise.
#[derive(Debug, Clone, PartialEq, Eq)]
pub enum Action {
    /// Open. Create a tag with a label and zero or more existing parents.
    DefineTag {
        /// Label as typed; the kernel normalizes it.
        label: String,
        /// Parents, which must already exist. Duplicates are collapsed.
        parents: Vec<TagId>,
    },
    /// Curated. Change the preferred label. The old label does **not**
    /// become an alias automatically; use [`Action::AddAlias`].
    RenameTag {
        /// Tag to rename.
        tag: TagId,
        /// New label as typed.
        label: String,
    },
    /// Curated. Add an alternative label that resolves to this tag.
    AddAlias {
        /// Tag receiving the alias.
        tag: TagId,
        /// Alias as typed.
        alias: String,
    },
    /// Curated. Remove an alias.
    RemoveAlias {
        /// Tag owning the alias.
        tag: TagId,
        /// Alias as typed.
        alias: String,
    },
    /// Curated. Add a parent edge. Rejected if it would create a cycle.
    AddParent {
        /// The narrower tag.
        child: TagId,
        /// The broader tag.
        parent: TagId,
    },
    /// Curated. Remove a parent edge.
    RemoveParent {
        /// The narrower tag.
        child: TagId,
        /// The broader tag.
        parent: TagId,
    },
    /// Curated. Fold `source` into `into`: bindings move, `source`'s label and
    /// aliases become aliases of `into`, parents union, children re-parent,
    /// `source` is removed. Rejected if the result would be cyclic.
    MergeTags {
        /// Tag that disappears.
        source: TagId,
        /// Tag that absorbs it.
        into: TagId,
    },
    /// Curated. Remove a tag that has no bindings and no children.
    RetireTag(TagId),
    /// Open. Bind `tag` to `item` on behalf of the acting actor. Idempotent.
    Tag {
        /// Item to tag.
        item: ItemId,
        /// Tag to apply.
        tag: TagId,
        /// Who may see this binding.
        visibility: Visibility,
    },
    /// Open for one's own bindings; a curator may name another tagger.
    Untag {
        /// Item to untag.
        item: ItemId,
        /// Tag to remove.
        tag: TagId,
        /// Whose binding; `None` means the acting actor's own.
        tagger: Option<ActorId>,
    },
}

/// An action, as values.
pub enum ActionView {
    DefineTag { label: Seq<char>, parents: Seq<u64> },
    RenameTag { tag: u64, label: Seq<char> },
    AddAlias { tag: u64, alias: Seq<char> },
    RemoveAlias { tag: u64, alias: Seq<char> },
    AddParent { child: u64, parent: u64 },
    RemoveParent { child: u64, parent: u64 },
    MergeTags { source: u64, into: u64 },
    RetireTag(u64),
    Tag { item: Seq<char>, tag: u64, visibility: Visibility },
    Untag { item: Seq<char>, tag: u64, tagger: Option<Seq<char>> },
}

impl View for Action {
    type V = ActionView;

    open spec fn view(&self) -> ActionView {
        match self {
            Action::DefineTag { label, parents } => ActionView::DefineTag {
                label: label@,
                parents: ids_view(parents@),
            },
            Action::RenameTag { tag, label } => ActionView::RenameTag { tag: tag.0, label: label@ },
            Action::AddAlias { tag, alias } => ActionView::AddAlias { tag: tag.0, alias: alias@ },
            Action::RemoveAlias { tag, alias } => ActionView::RemoveAlias {
                tag: tag.0,
                alias: alias@,
            },
            Action::AddParent { child, parent } => ActionView::AddParent {
                child: child.0,
                parent: parent.0,
            },
            Action::RemoveParent { child, parent } => ActionView::RemoveParent {
                child: child.0,
                parent: parent.0,
            },
            Action::MergeTags { source, into } => ActionView::MergeTags {
                source: source.0,
                into: into.0,
            },
            Action::RetireTag(t) => ActionView::RetireTag(t.0),
            Action::Tag { item, tag, visibility } => ActionView::Tag {
                item: item@,
                tag: tag.0,
                visibility: *visibility,
            },
            Action::Untag { item, tag, tagger } => ActionView::Untag {
                item: item@,
                tag: tag.0,
                tagger: match tagger {
                    Some(a) => Some(a@),
                    None => None,
                },
            },
        }
    }
}

impl ActionView {
    /// Curated actions: everything but defining, tagging and untagging.
    pub open spec fn is_structural(self) -> bool {
        !(self is DefineTag || self is Tag || self is Untag)
    }
}

impl Action {
    /// Whether this action is structural (curated) rather than open.
    pub fn is_structural(&self) -> (r: bool)
        ensures
            r == self@.is_structural(),
    {
        match self {
            Action::DefineTag { .. } | Action::Tag { .. } | Action::Untag { .. } => false,
            _ => true,
        }
    }
}

} // verus!
