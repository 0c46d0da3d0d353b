//! The three identities of the domain, each with a different owner.

use vstd::prelude::*;

verus! {

/// Stable identity of a tag, allocated by the kernel from
/// [`Folksonomy::next_tag_id`](crate::Folksonomy::next_tag_id). Labels may
/// change; ids never do.
#[derive(Debug, Clone, Copy, PartialEq, Eq, Structural, PartialOrd, Ord, Hash)]
pub struct TagId(pub u64);

/// Opaque, caller-supplied identity of a tagged thing. The kernel compares it
/// character by character and does nothing else with it: a path, a URL, a
/// content digest or a database key are all the shell's business.
#[derive(Debug, PartialEq, Eq, PartialOrd, Ord, Hash)]
pub struct ItemId(pub String);

/// Opaque, caller-supplied identity of the party performing an action — the
/// "folk" in folksonomy. The kernel is told who the actor is; it never finds out.
#[derive(Debug, PartialEq, Eq, PartialOrd, Ord, Hash)]
pub struct ActorId(pub String);

impl View for ItemId {
    type V = Seq<char>;

    open spec fn view(&self) -> Seq<char> {
        self.0@
    }
}

impl View for ActorId {
    type V = Seq<char>;

    open spec fn view(&self) -> Seq<char> {
        self.0@
    }
}

impl Clone for ItemId {
    fn clone(&self) -> (r: Self)
        ensures
            r == *self,
    {
        ItemId(self.0.clone())
    }
}

impl Clone for ActorId {
    fn clone(&self) -> (r: Self)
        ensures
            r == *self,
    {
        ActorId(self.0.clone())
    }
}

impl ItemId {
    /// The item with exactly these characters.
    pub fn new(s: &str) -> (r: Self)
        ensures
            r@ == s@,
    {
        ItemId(s.to_owned())
    }

    /// The characters of the id.
    pub fn as_str(&self) -> (r: &str)
        ensures
            r@ == self@,
    {
        self.0.as_str()
    }

    /// Whether two ids have the same characters.
    pub fn same(&self, other: &ItemId) -> (r: bool)
        ensures
            r == (self@ == other@),
    {
        self.0 == other.0
    }
}

impl ActorId {
    /// The actor with exactly these characters.
    pub fn new(s: &str) -> (r: Self)
        ensures
            r@ == s@,
    {
        ActorId(s.to_owned())
    }

    /// The characters of the id.
    pub fn as_str(&self) -> (r: &str)
        ensures
            r@ == self@,
    {
        self.0.as_str()
    }

    /// Whether two ids have the same characters.
    pub fn same(&self, other: &ActorId) -> (r: bool)
        ensures
            r == (self@ == other@),
    {
        self.0 == other.0
    }
}

} // verus!
