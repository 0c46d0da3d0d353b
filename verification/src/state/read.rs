//! Construction and plain reads of a state.

use vstd::prelude::*;

use super::collections::{actors_contains, actors_insert, labels_contains, tags_find};
use super::{
    actors_view, bindings_view, ids_view, tags_view, text_lt, Binding, FolkView, Folksonomy, Tag,
    TagView,
};
use crate::error::FolkError;
use crate::ids::{ActorId, TagId};
use crate::label::{normalize_label, normalized};
use crate::sorted::{lemma_set_of_push, set_of, sorted_by};

verus! {

/// The first position whose element satisfies `p`.
pub open spec fn is_first<A>(s: Seq<A>, p: spec_fn(A) -> bool, i: int) -> bool {
    &&& 0 <= i < s.len()
    &&& p(s[i])
    &&& forall|j: int| 0 <= j < i ==> !p(#[trigger] s[j])
}

/// The first element satisfying `p`, if any.
pub open spec fn first_where<A>(s: Seq<A>, p: spec_fn(A) -> bool) -> Option<A> {
    if exists|i: int| is_first(s, p, i) {
        Some(s[choose|i: int| is_first(s, p, i)])
    } else {
        None
    }
}

/// Finding the first element settles `first_where`.
pub proof fn lemma_first_where_found<A>(s: Seq<A>, p: spec_fn(A) -> bool, i: int)
    requires
        is_first(s, p, i),
    ensures
        first_where(s, p) == Some(s[i]),
{
    let k = choose|k: int| is_first(s, p, k);
    if k < i {
        assert(!p(s[k]));
    } else if i < k {
        assert(!p(s[i]));
    }
}

/// Finding no element settles `first_where`.
pub proof fn lemma_first_where_none<A>(s: Seq<A>, p: spec_fn(A) -> bool)
    requires
        forall|j: int| 0 <= j < s.len() ==> !p(#[trigger] s[j]),
    ensures
        first_where(s, p) == None::<A>,
{
}

/// A first element exists once some element qualifies.
pub proof fn lemma_first_where_some<A>(s: Seq<A>, p: spec_fn(A) -> bool, i: int)
    requires
        0 <= i < s.len(),
        p(s[i]),
    ensures
        first_where(s, p) is Some,
    decreases i,
{
    if exists|j: int| 0 <= j < i && p(s[j]) {
        let j = choose|j: int| 0 <= j < i && p(s[j]);
        lemma_first_where_some(s, p, j);
    } else {
        assert(is_first(s, p, i));
    }
}

/// The tag owns the label: as its preferred label or as an alias.
pub open spec fn owns(norm: Seq<char>) -> spec_fn(TagView) -> bool {
    |t: TagView| t.label == norm || t.aliases.contains(norm)
}

/// The tag, in id order, that first owns an already-normalized label.
pub open spec fn resolve_normalized(v: FolkView, norm: Seq<char>) -> Option<u64> {
    match first_where(v.tags, owns(norm)) {
        Some(t) => Some(t.id),
        None => None,
    }
}

/// Whether a tag lists this one as a parent.
pub open spec fn has_children(v: FolkView, tag: u64) -> bool {
    exists|i: int| 0 <= i < v.tags.len() && v.tags[i].parents.contains(tag)
}

/// Whether a binding uses this tag.
pub open spec fn has_bindings(v: FolkView, tag: u64) -> bool {
    exists|i: int| 0 <= i < v.bindings.len() && v.bindings[i].tag == tag
}

impl Folksonomy {
    /// An empty folksonomy with the given curators. An empty curator list
    /// means a fully open vocabulary.
    pub fn empty(curators: Vec<ActorId>) -> (r: Folksonomy)
        ensures
            r.wf(),
            r@.next_tag_id == 1,
            r@.tags.len() == 0,
            r@.bindings.len() == 0,
            r@.curators == set_of(actors_view(curators@), text_lt()),
    {
        let ghost cv = actors_view(curators@);
        let mut cs: Vec<ActorId> = Vec::new();
        let mut i: usize = 0;
        proof {
            assert(actors_view(cs@) =~= Seq::<Seq<char>>::empty());
            assert(cv.take(0) =~= Seq::<Seq<char>>::empty());
        }
        while i < curators.len()
            invariant
                cv == actors_view(curators@),
                i <= cv.len(),
                actors_view(cs@) == set_of(cv.take(i as int), text_lt()),
                sorted_by(actors_view(cs@), text_lt()),
            decreases cv.len() - i,
        {
            proof {
                assert(cv.take(i + 1) =~= cv.take(i as int).push(cv[i as int]));
                lemma_set_of_push(cv.take(i as int), cv[i as int], text_lt());
            }
            actors_insert(&mut cs, curators[i].clone());
            i = i + 1;
        }
        proof {
            assert(cv.take(i as int) =~= cv);
        }
        let r = Folksonomy { next_tag_id: 1, tags: Vec::new(), bindings: Vec::new(), curators: cs };
        proof {
            assert(tags_view(r.tags@) =~= Seq::<TagView>::empty());
            assert(bindings_view(r.bindings@) =~= Seq::<super::BindingView>::empty());
        }
        r
    }

    /// The id the next `DefineTag` will allocate.
    pub fn next_tag_id(&self) -> (r: TagId)
        ensures
            r.0 == self@.next_tag_id,
    {
        TagId(self.next_tag_id)
    }

    /// The vocabulary, by id.
    pub fn tags(&self) -> (r: &[Tag])
        ensures
            tags_view(r@) == self@.tags,
    {
        self.tags.as_slice()
    }

    /// One tag.
    pub fn tag(&self, id: TagId) -> (r: Option<&Tag>)
        requires
            self.wf(),
        ensures
            match r {
                Some(t) => self@.has_tag(id.0) && t@ == self@.tag(id.0),
                None => !self@.has_tag(id.0),
            },
    {
        match tags_find(&self.tags, id.0) {
            Some(i) => {
                proof {
                    let k = self@.tag_index(id.0);
                    super::collections::lemma_tag_unique(self@.tags, i as int, k);
                }
                Some(&self.tags[i])
            },
            None => None,
        }
    }

    /// Every binding, in `(item, tag, tagger)` order, regardless of actor.
    /// Shells that hold the state may read this; anything shown to an actor
    /// should go through [`Folksonomy::view_for`].
    pub fn bindings(&self) -> (r: Vec<Binding>)
        ensures
            bindings_view(r@) == self@.bindings,
    {
        let r = self.bindings.clone();
        proof {
            assert(bindings_view(r@) =~= bindings_view(self.bindings@));
        }
        r
    }

    /// The curators, sorted. Empty means open.
    pub fn curators(&self) -> (r: &Vec<ActorId>)
        ensures
            actors_view(r@) == self@.curators,
    {
        &self.curators
    }

    /// Whether this actor is a curator.
    pub fn is_curator(&self, actor: &ActorId) -> (r: bool)
        ensures
            r == self@.is_curator(actor@),
    {
        actors_contains(&self.curators, actor)
    }

    /// Whether this actor may perform structural edits: always when the
    /// vocabulary is open, otherwise only curators.
    pub fn may_edit_structure(&self, actor: &ActorId) -> (r: bool)
        ensures
            r == self@.may_edit_structure(actor@),
    {
        self.curators.len() == 0 || self.is_curator(actor)
    }

    /// Label or alias → tag, after normalization.
    pub fn resolve(&self, label: &str) -> (r: Option<TagId>)
        ensures
            match r {
                Some(t) => resolve_normalized(self@, normalized(label@)) == Some(t.0),
                None => resolve_normalized(self@, normalized(label@)) == None::<u64>,
            },
    {
        let norm = normalize_label(label);
        self.resolve_normalized(&norm)
    }

    /// Already-normalized label or alias → tag.
    pub(crate) fn resolve_normalized(&self, norm: &String) -> (r: Option<TagId>)
        ensures
            match r {
                Some(t) => resolve_normalized(self@, norm@) == Some(t.0),
                None => resolve_normalized(self@, norm@) == None::<u64>,
            },
    {
        let ghost v = self@;
        let mut i: usize = 0;
        while i < self.tags.len()
            invariant
                v == self@,
                i <= self.tags@.len(),
                forall|j: int| 0 <= j < i ==> !owns(norm@)(#[trigger] v.tags[j]),
            decreases self.tags@.len() - i,
        {
            if self.tags[i].label == *norm || labels_contains(&self.tags[i].aliases, norm) {
                proof {
                    assert(owns(norm@)(v.tags[i as int]));
                    lemma_first_where_found(v.tags, owns(norm@), i as int);
                }
                return Some(self.tags[i].id);
            }
            i = i + 1;
        }
        None
    }

    /// The tag with this id, or why not.
    pub(crate) fn require(&self, id: TagId) -> (r: Result<&Tag, FolkError>)
        requires
            self.wf(),
        ensures
            match r {
                Ok(t) => self@.has_tag(id.0) && t@ == self@.tag(id.0),
                Err(e) => !self@.has_tag(id.0) && e == FolkError::UnknownTag(id),
            },
    {
        match self.tag(id) {
            Some(t) => Ok(t),
            None => Err(FolkError::UnknownTag(id)),
        }
    }

    /// Whether any tag lists this one as a parent.
    pub(crate) fn has_children(&self, tag: TagId) -> (r: bool)
        ensures
            r == has_children(self@, tag.0),
    {
        let ghost v = self@;
        let mut i: usize = 0;
        while i < self.tags.len()
            invariant
                v == self@,
                i <= self.tags@.len(),
                forall|j: int| 0 <= j < i ==> !(#[trigger] v.tags[j]).parents.contains(tag.0),
            decreases self.tags@.len() - i,
        {
            if super::collections::ids_contains(&self.tags[i].parents, tag.0) {
                assert(v.tags[i as int].parents == ids_view(self.tags@[i as int].parents@));
                return true;
            }
            i = i + 1;
        }
        false
    }

    /// Whether any binding uses this tag.
    pub(crate) fn has_bindings(&self, tag: TagId) -> (r: bool)
        ensures
            r == has_bindings(self@, tag.0),
    {
        let ghost v = self@;
        let mut i: usize = 0;
        while i < self.bindings.len()
            invariant
                v == self@,
                i <= self.bindings@.len(),
                forall|j: int| 0 <= j < i ==> (#[trigger] v.bindings[j]).tag != tag.0,
            decreases self.bindings@.len() - i,
        {
            if self.bindings[i].tag.0 == tag.0 {
                assert(v.bindings[i as int].tag == tag.0);
                return true;
            }
            i = i + 1;
        }
        false
    }
}

impl Default for Folksonomy {
    /// A state with nothing in it and the id counter at zero.
    fn default() -> (r: Folksonomy)
        ensures
            r.wf(),
            r@.next_tag_id == 0,
            r@.tags.len() == 0,
            r@.bindings.len() == 0,
            r@.curators.len() == 0,
    {
        let r = Folksonomy { next_tag_id: 0, tags: Vec::new(), bindings: Vec::new(), curators: Vec::new() };
        proof {
            assert(tags_view(r.tags@) =~= Seq::<TagView>::empty());
            assert(bindings_view(r.bindings@) =~= Seq::<super::BindingView>::empty());
            assert(actors_view(r.curators@) =~= Seq::<Seq<char>>::empty());
        }
        r
    }
}

} // verus!
