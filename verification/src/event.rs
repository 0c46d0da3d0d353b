//! Outputs of [`Folksonomy::apply`](crate::Folksonomy::apply) — the product.
//!
//! Events are structured values, never sentences. Shells persist them, mirror
//! them into indexes, xattrs or sidecars, or turn them into another
//! kernel's actions. The order within one `apply` is part of the contract.

use vstd::prelude::*;

use crate::ids::{ActorId, ItemId, TagId};
use crate::state::{ids_view, Visibility};

verus! {

/// Everything `apply` can report.
#[derive(Debug, PartialEq, Eq)]
pub enum Event {
    /// A new tag exists.
    TagDefined {
        /// The allocated id.
        tag: TagId,
        /// Normalized label.
        label: String,
        /// Parents at definition, sorted.
        parents: Vec<TagId>,
        /// Who defined it.
        by: ActorId,
    },
    /// The preferred label changed.
    TagRenamed {
        /// Renamed tag.
        tag: TagId,
        /// Previous normalized label.
        old_label: String,
        /// New normalized label.
        new_label: String,
        /// Who renamed it.
        by: ActorId,
    },
    /// An alias now resolves to the tag.
    AliasAdded {
        /// Tag owning the alias.
        tag: TagId,
        /// Normalized alias.
        alias: String,
        /// Who added it.
        by: ActorId,
    },
    /// An alias no longer resolves.
    AliasRemoved {
        /// Tag that owned the alias.
        tag: TagId,
        /// Normalized alias.
        alias: String,
        /// Who removed it.
        by: ActorId,
    },
    /// A parent edge now exists.
    ParentAdded {
        /// Narrower tag.
        child: TagId,
        /// Broader tag.
        parent: TagId,
        /// Who added it.
        by: ActorId,
    },
    /// A parent edge no longer exists.
    ParentRemoved {
        /// Narrower tag.
        child: TagId,
        /// Broader tag.
        parent: TagId,
        /// Who removed it.
        by: ActorId,
    },
    /// Summary emitted last by a merge, after its primitive events.
    TagsMerged {
        /// Tag that disappeared.
        source: TagId,
        /// Tag that absorbed it.
        into: TagId,
        /// Bindings that moved (duplicates dropped are not counted).
        moved_bindings: u32,
        /// Who merged.
        by: ActorId,
    },
    /// A tag was removed.
    TagRetired {
        /// Removed tag.
        tag: TagId,
        /// Its label at removal.
        label: String,
        /// Who retired it.
        by: ActorId,
    },
    /// A binding now exists.
    Tagged {
        /// Bound item.
        item: ItemId,
        /// Bound tag.
        tag: TagId,
        /// Whose binding.
        tagger: ActorId,
        /// Its visibility.
        visibility: Visibility,
    },
    /// A binding no longer exists.
    Untagged {
        /// Unbound item.
        item: ItemId,
        /// Unbound tag.
        tag: TagId,
        /// Whose binding it was.
        tagger: ActorId,
        /// Its visibility at removal.
        visibility: Visibility,
    },
    /// A binding's visibility changed.
    VisibilityChanged {
        /// Bound item.
        item: ItemId,
        /// Bound tag.
        tag: TagId,
        /// Whose binding.
        tagger: ActorId,
        /// The new visibility.
        visibility: Visibility,
    },
}

/// An event, as values.
pub enum EventView {
    TagDefined { tag: u64, label: Seq<char>, parents: Seq<u64>, by: Seq<char> },
    TagRenamed { tag: u64, old_label: Seq<char>, new_label: Seq<char>, by: Seq<char> },
    AliasAdded { tag: u64, alias: Seq<char>, by: Seq<char> },
    AliasRemoved { tag: u64, alias: Seq<char>, by: Seq<char> },
    ParentAdded { child: u64, parent: u64, by: Seq<char> },
    ParentRemoved { child: u64, parent: u64, by: Seq<char> },
    TagsMerged { source: u64, into: u64, moved_bindings: u32, by: Seq<char> },
    TagRetired { tag: u64, label: Seq<char>, by: Seq<char> },
    Tagged { item: Seq<char>, tag: u64, tagger: Seq<char>, visibility: Visibility },
    Untagged { item: Seq<char>, tag: u64, tagger: Seq<char>, visibility: Visibility },
    VisibilityChanged { item: Seq<char>, tag: u64, tagger: Seq<char>, visibility: Visibility },
}

impl View for Event {
    type V = EventView;

    open spec fn view(&self) -> EventView {
        match self {
            Event::TagDefined { tag, label, parents, by } => EventView::TagDefined {
                tag: tag.0,
                label: label@,
                parents: ids_view(parents@),
                by: by@,
            },
            Event::TagRenamed { tag, old_label, new_label, by } => EventView::TagRenamed {
                tag: tag.0,
                old_label: old_label@,
                new_label: new_label@,
                by: by@,
            },
            Event::AliasAdded { tag, alias, by } => EventView::AliasAdded {
                tag: tag.0,
                alias: alias@,
                by: by@,
            },
            Event::AliasRemoved { tag, alias, by } => EventView::AliasRemoved {
                tag: tag.0,
                alias: alias@,
                by: by@,
            },
            Event::ParentAdded { child, parent, by } => EventView::ParentAdded {
                child: child.0,
                parent: parent.0,
                by: by@,
            },
            Event::ParentRemoved { child, parent, by } => EventView::ParentRemoved {
                child: child.0,
                parent: parent.0,
                by: by@,
            },
            Event::TagsMerged { source, into, moved_bindings, by } => EventView::TagsMerged {
                source: source.0,
                into: into.0,
                moved_bindings: *moved_bindings,
                by: by@,
            },
            Event::TagRetired { tag, label, by } => EventView::TagRetired {
                tag: tag.0,
                label: label@,
                by: by@,
            },
            Event::Tagged { item, tag, tagger, visibility } => EventView::Tagged {
                item: item@,
                tag: tag.0,
                tagger: tagger@,
                visibility: *visibility,
            },
            Event::Untagged { item, tag, tagger, visibility } => EventView::Untagged {
                item: item@,
                tag: tag.0,
                tagger: tagger@,
                visibility: *visibility,
            },
            Event::VisibilityChanged { item, tag, tagger, visibility } => EventView::VisibilityChanged {
                item: item@,
                tag: tag.0,
                tagger: tagger@,
                visibility: *visibility,
            },
        }
    }
}

/// Each event as values.
pub open spec fn events_view(s: Seq<Event>) -> Seq<EventView> {
    s.map_values(|e: Event| e@)
}

impl Clone for Event {
    fn clone(&self) -> (r: Self)
        ensures
            r@ == self@,
    {
        match self {
            Event::TagDefined { tag, label, parents, by } => {
                let ps = parents.clone();
                assert(ps@ =~= parents@);
                Event::TagDefined { tag: *tag, label: label.clone(), parents: ps, by: by.clone() }
            },
            Event::TagRenamed { tag, old_label, new_label, by } => Event::TagRenamed {
                tag: *tag,
                old_label: old_label.clone(),
                new_label: new_label.clone(),
                by: by.clone(),
            },
            Event::AliasAdded { tag, alias, by } => Event::AliasAdded {
                tag: *tag,
                alias: alias.clone(),
                by: by.clone(),
            },
            Event::AliasRemoved { tag, alias, by } => Event::AliasRemoved {
                tag: *tag,
                alias: alias.clone(),
                by: by.clone(),
            },
            Event::ParentAdded { child, parent, by } => Event::ParentAdded {
                child: *child,
                parent: *parent,
                by: by.clone(),
            },
            Event::ParentRemoved { child, parent, by } => Event::ParentRemoved {
                child: *child,
                parent: *parent,
                by: by.clone(),
            },
            Event::TagsMerged { source, into, moved_bindings, by } => Event::TagsMerged {
                source: *source,
                into: *into,
                moved_bindings: *moved_bindings,
                by: by.clone(),
            },
            Event::TagRetired { tag, label, by } => Event::TagRetired {
                tag: *tag,
                label: label.clone(),
                by: by.clone(),
            },
            Event::Tagged { item, tag, tagger, visibility } => Event::Tagged {
                item: item.clone(),
                tag: *tag,
                tagger: tagger.clone(),
                visibility: *visibility,
            },
            Event::Untagged { item, tag, tagger, visibility } => Event::Untagged {
                item: item.clone(),
                tag: *tag,
                tagger: tagger.clone(),
                visibility: *visibility,
            },
            Event::VisibilityChanged { item, tag, tagger, visibility } => Event::VisibilityChanged {
                item: item.clone(),
                tag: *tag,
                tagger: tagger.clone(),
                visibility: *visibility,
            },
        }
    }
}

} // verus!
