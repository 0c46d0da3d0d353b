//! # folkengine — a folksonomy domain kernel
//!
//! The pure logic of a folksonomy: a poly-hierarchical tag vocabulary,
//! `(tagger, item, tag)` bindings, and per-actor selections over them.
//!
//! Every operation is a total function from state and input to new state and
//! events. The kernel performs no I/O, consults no clock, and knows nothing
//! about files, paths, URLs, databases or how it is being called.

use vstd::prelude::*;

pub mod action;
pub mod error;
pub mod event;
pub mod ids;
pub mod label;
pub mod sorted;
pub mod state;
pub mod text;

pub use action::Action;
pub use error::FolkError;
pub use event::Event;
pub use ids::{ActorId, ItemId, TagId};
pub use label::normalize_label;
pub use state::{
    Binding, BindingKey, Defect, Folksonomy, FolksonomyView, Selection, Tag, TagCount, TagRef,
    Transition, Visibility,
};

verus! {
} // verus!
