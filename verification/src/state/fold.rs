//! Replay — the other half of the transition contract.
//!
//! [`Folksonomy::apply`] returns a [`Transition`](crate::Transition) with two
//! halves: the next state and the events that describe it. [`Folksonomy::fold`]
//! replays the events, and the two halves agree:
//! `pre.fold(&t.events) == t.state` for every successful `t = pre.apply(..)`.
//!
//! `fold` is a *replay*, not a transition: it asks no questions about
//! authorization or legality, because those were answered by the `apply` that
//! produced the events. Folding events that no `apply` emitted, or folding them
//! onto the wrong prior state, can produce a state that
//! [`Folksonomy::validate`] rejects.

use vstd::prelude::*;

use super::collections::{
    bindings_find, bindings_put, bindings_remove_at, ids_insert, ids_remove, labels_insert,
    labels_remove, lemma_tag_unique, tags_find, tags_put, tags_remove,
};
use super::{
    binding_lt, bindings_view, id_lt, ids_view, key_other_than, labels_view, lemma_id_lt_order,
    lemma_tag_lt_order, lemma_text_lt_order, probe, tag_lt, tag_other_than, tags_view, text_lt,
    Binding, FolkView, Folksonomy, Tag, TagView,
};
use crate::event::{events_view, Event, EventView};
use crate::ids::TagId;
use crate::sorted::{lemma_filter_all, other_than, set_of, sorted_by, sorted_put};

verus! {

/// The sorted, duplicate-free set of the given ids.
pub open spec fn id_set(s: Seq<u64>) -> Seq<u64> {
    set_of(s, id_lt())
}

/// The tags, with the one whose id is `id` replaced by `f` of it.
pub open spec fn map_tag(tags: Seq<TagView>, id: u64, f: spec_fn(TagView) -> TagView) -> Seq<TagView> {
    tags.map_values(|t: TagView| if t.id == id { f(t) } else { t })
}

/// Rename: the new label, which leaves the alias set if it was there.
pub open spec fn renamed(label: Seq<char>) -> spec_fn(TagView) -> TagView {
    |t: TagView| TagView { label, aliases: t.aliases.filter(other_than(label)), ..t }
}

/// One more alias.
pub open spec fn alias_added(alias: Seq<char>) -> spec_fn(TagView) -> TagView {
    |t: TagView| TagView { aliases: sorted_put(t.aliases, alias, text_lt()), ..t }
}

/// One alias fewer.
pub open spec fn alias_removed(alias: Seq<char>) -> spec_fn(TagView) -> TagView {
    |t: TagView| TagView { aliases: t.aliases.filter(other_than(alias)), ..t }
}

/// One more parent.
pub open spec fn parent_added(parent: u64) -> spec_fn(TagView) -> TagView {
    |t: TagView| TagView { parents: sorted_put(t.parents, parent, id_lt()), ..t }
}

/// One parent fewer.
pub open spec fn parent_removed(parent: u64) -> spec_fn(TagView) -> TagView {
    |t: TagView| TagView { parents: t.parents.filter(other_than(parent)), ..t }
}

/// What one event does to a state. Each arm is the state change that the
/// code in `apply` emitting the event makes.
pub open spec fn replay(v: FolkView, e: EventView) -> FolkView {
    match e {
        EventView::TagDefined { tag, label, parents, .. } => FolkView {
            next_tag_id: if v.next_tag_id > tag {
                v.next_tag_id
            } else {
                (tag + 1) as u64
            },
            tags: sorted_put(
                v.tags,
                TagView { id: tag, label, aliases: Seq::empty(), parents: id_set(parents) },
                tag_lt(),
            ),
            ..v
        },
        EventView::TagRenamed { tag, new_label, .. } => FolkView {
            tags: map_tag(v.tags, tag, renamed(new_label)),
            ..v
        },
        EventView::AliasAdded { tag, alias, .. } => FolkView {
            tags: map_tag(v.tags, tag, alias_added(alias)),
            ..v
        },
        EventView::AliasRemoved { tag, alias, .. } => FolkView {
            tags: map_tag(v.tags, tag, alias_removed(alias)),
            ..v
        },
        EventView::ParentAdded { child, parent, .. } => FolkView {
            tags: map_tag(v.tags, child, parent_added(parent)),
            ..v
        },
        EventView::ParentRemoved { child, parent, .. } => FolkView {
            tags: map_tag(v.tags, child, parent_removed(parent)),
            ..v
        },
        EventView::TagsMerged { source, .. } => FolkView {
            tags: v.tags.filter(tag_other_than(source)),
            ..v
        },
        EventView::TagRetired { tag, .. } => FolkView { tags: v.tags.filter(tag_other_than(tag)), ..v },
        EventView::Tagged { item, tag, tagger, visibility } => FolkView {
            bindings: sorted_put(
                v.bindings,
                super::BindingView { item, tag, tagger, visibility },
                binding_lt(),
            ),
            ..v
        },
        EventView::VisibilityChanged { item, tag, tagger, visibility } => FolkView {
            bindings: sorted_put(
                v.bindings,
                super::BindingView { item, tag, tagger, visibility },
                binding_lt(),
            ),
            ..v
        },
        EventView::Untagged { item, tag, tagger, .. } => FolkView {
            bindings: v.bindings.filter(key_other_than(probe(item, tag, tagger))),
            ..v
        },
    }
}

/// Every event in order, each on the state the previous one left.
pub open spec fn fold_events(v: FolkView, es: Seq<EventView>) -> FolkView
    decreases es.len(),
{
    if es.len() == 0 {
        v
    } else {
        replay(fold_events(v, es.drop_last()), es.last())
    }
}

/// An event that can be replayed without overflowing the id counter.
pub open spec fn replayable(e: EventView) -> bool {
    e matches EventView::TagDefined { tag, .. } ==> tag < u64::MAX
}

/// Replacing the tag whose id is `s[i].id` by `f` of it, in a list sorted by
/// id, changes exactly position `i`.
pub proof fn lemma_map_tag(s: Seq<TagView>, i: int, f: spec_fn(TagView) -> TagView)
    requires
        sorted_by(s, tag_lt()),
        0 <= i < s.len(),
    ensures
        map_tag(s, s[i].id, f) == s.update(i, f(s[i])),
{
    assert forall|j: int| 0 <= j < s.len() implies #[trigger] map_tag(s, s[i].id, f)[j] == s.update(
        i,
        f(s[i]),
    )[j] by {
        if j != i && s[j].id == s[i].id {
            lemma_tag_unique(s, i, j);
        }
    }
    assert(map_tag(s, s[i].id, f) =~= s.update(i, f(s[i])));
}

/// With no tag of that id, replacing it changes nothing.
pub proof fn lemma_map_tag_absent(s: Seq<TagView>, id: u64, f: spec_fn(TagView) -> TagView)
    requires
        forall|j: int| 0 <= j < s.len() ==> #[trigger] s[j].id != id,
    ensures
        map_tag(s, id, f) == s,
{
    assert(map_tag(s, id, f) =~= s);
}

/// The sorted set of some ids.
pub fn id_set_of(v: &Vec<TagId>) -> (r: Vec<TagId>)
    ensures
        ids_view(r@) == id_set(ids_view(v@)),
        sorted_by(ids_view(r@), id_lt()),
{
    let mut r: Vec<TagId> = Vec::new();
    let mut i: usize = 0;
    assert(ids_view(r@) =~= Seq::<u64>::empty());
    while i < v.len()
        invariant
            i <= v@.len(),
            ids_view(r@) == id_set(ids_view(v@).take(i as int)),
            sorted_by(ids_view(r@), id_lt()),
        decreases v@.len() - i,
    {
        ids_insert(&mut r, v[i]);
        assert(ids_view(v@).take(i + 1).drop_last() =~= ids_view(v@).take(i as int));
        i = i + 1;
    }
    assert(ids_view(v@).take(v@.len() as int) =~= ids_view(v@));
    r
}

impl Folksonomy {
    /// Replaces tag `i` by `t`, which has the same id.
    fn set_tag(&mut self, i: usize, t: Tag, Ghost(f): Ghost<spec_fn(TagView) -> TagView>)
        requires
            old(self).wf(),
            i < old(self).tags@.len(),
            t@ == f(old(self).tags@[i as int]@),
            t@.id == old(self).tags@[i as int]@.id,
            t@.wf(),
        ensures
            final(self).wf(),
            final(self)@ == (FolkView {
                tags: map_tag(old(self)@.tags, old(self)@.tags[i as int].id, f),
                ..old(self)@
            }),
    {
        let ghost s = tags_view(self.tags@);
        proof {
            lemma_map_tag(s, i as int, f);
        }
        self.tags.set(i, t);
        proof {
            assert(tags_view(self.tags@) =~= s.update(i as int, f(s[i as int])));
            assert forall|p: int, q: int|
                0 <= p < q < s.len() implies #[trigger] tag_lt()(
                tags_view(self.tags@)[p],
                tags_view(self.tags@)[q],
            ) by {
                assert(tag_lt()(s[p], s[q]));
            }
        }
    }

    /// Applies one event to the state.
    fn replay(&mut self, e: &Event)
        requires
            old(self).wf(),
            replayable(e@),
        ensures
            final(self).wf(),
            final(self)@ == replay(old(self)@, e@),
    {
        let ghost v = self@;
        proof {
            lemma_tag_lt_order();
            lemma_text_lt_order();
            lemma_id_lt_order();
        }
        match e {
            Event::TagDefined { tag, label, parents, .. } => {
                let ps = id_set_of(parents);
                let t = Tag { id: *tag, label: label.clone(), aliases: Vec::new(), parents: ps };
                proof {
                    assert(labels_view(t.aliases@) =~= Seq::<Seq<char>>::empty());
                }
                tags_put(&mut self.tags, t);
                if self.next_tag_id <= tag.0 {
                    self.next_tag_id = tag.0 + 1;
                }
                proof {
                    let nt = tags_view(self.tags@);
                    assert forall|i: int| 0 <= i < nt.len() implies (#[trigger] nt[i]).wf() by {
                        if nt[i] != t@ {
                            let k = choose|k: int| 0 <= k < v.tags.len() && v.tags[k] == nt[i];
                        }
                    }
                    assert(self@ =~= replay(v, e@));
                }
            },
            Event::TagRenamed { tag, new_label, .. } => {
                match tags_find(&self.tags, tag.0) {
                    Some(i) => {
                        let mut t = self.tags[i].clone();
                        labels_remove(&mut t.aliases, new_label);
                        t.label = new_label.clone();
                        self.set_tag(i, t, Ghost(renamed(new_label@)));
                    },
                    None => {
                        proof {
                            lemma_map_tag_absent(v.tags, tag.0, renamed(new_label@));
                        }
                    },
                }
            },
            Event::AliasAdded { tag, alias, .. } => {
                match tags_find(&self.tags, tag.0) {
                    Some(i) => {
                        let mut t = self.tags[i].clone();
                        labels_insert(&mut t.aliases, alias.clone());
                        self.set_tag(i, t, Ghost(alias_added(alias@)));
                    },
                    None => {
                        proof {
                            lemma_map_tag_absent(v.tags, tag.0, alias_added(alias@));
                        }
                    },
                }
            },
            Event::AliasRemoved { tag, alias, .. } => {
                match tags_find(&self.tags, tag.0) {
                    Some(i) => {
                        let mut t = self.tags[i].clone();
                        labels_remove(&mut t.aliases, alias);
                        self.set_tag(i, t, Ghost(alias_removed(alias@)));
                    },
                    None => {
                        proof {
                            lemma_map_tag_absent(v.tags, tag.0, alias_removed(alias@));
                        }
                    },
                }
            },
            Event::ParentAdded { child, parent, .. } => {
                match tags_find(&self.tags, child.0) {
                    Some(i) => {
                        let mut t = self.tags[i].clone();
                        ids_insert(&mut t.parents, *parent);
                        self.set_tag(i, t, Ghost(parent_added(parent.0)));
                    },
                    None => {
                        proof {
                            lemma_map_tag_absent(v.tags, child.0, parent_added(parent.0));
                        }
                    },
                }
            },
            Event::ParentRemoved { child, parent, .. } => {
                match tags_find(&self.tags, child.0) {
                    Some(i) => {
                        let mut t = self.tags[i].clone();
                        ids_remove(&mut t.parents, parent.0);
                        self.set_tag(i, t, Ghost(parent_removed(parent.0)));
                    },
                    None => {
                        proof {
                            lemma_map_tag_absent(v.tags, child.0, parent_removed(parent.0));
                        }
                    },
                }
            },
            Event::TagsMerged { source, .. } => {
                self.drop_tag(source.0);
            },
            Event::TagRetired { tag, .. } => {
                self.drop_tag(tag.0);
            },
            Event::Tagged { item, tag, tagger, visibility } | Event::VisibilityChanged {
                item,
                tag,
                tagger,
                visibility,
            } => {
                let b = Binding {
                    item: item.clone(),
                    tag: *tag,
                    tagger: tagger.clone(),
                    visibility: *visibility,
                };
                bindings_put(&mut self.bindings, b);
                proof {
                    assert(self@ =~= replay(v, e@));
                }
            },
            Event::Untagged { item, tag, tagger, .. } => {
                match bindings_find(&self.bindings, item, *tag, tagger) {
                    Some(i) => {
                        bindings_remove_at(
                            &mut self.bindings,
                            i,
                            Ghost(probe(item@, tag.0, tagger@)),
                        );
                    },
                    None => {
                        proof {
                            let s = v.bindings;
                            let k = probe(item@, tag.0, tagger@);
                            assert forall|j: int| 0 <= j < s.len() implies #[trigger] key_other_than(
                                k,
                            )(s[j]) by {}
                            lemma_filter_all(s, key_other_than(k));
                        }
                    },
                }
                proof {
                    assert(self@ =~= replay(v, e@));
                }
            },
        }
    }

    /// Removes the tag with this id, if any.
    pub(crate) fn drop_tag(&mut self, id: u64)
        requires
            old(self).wf(),
        ensures
            final(self).wf(),
            final(self)@ == (FolkView {
                tags: old(self)@.tags.filter(tag_other_than(id)),
                ..old(self)@
            }),
    {
        let ghost v = self@;
        let _ = tags_remove(&mut self.tags, id);
        proof {
            let nt = tags_view(self.tags@);
            assert forall|i: int| 0 <= i < nt.len() implies (#[trigger] nt[i]).wf() by {
                let k = choose|k: int| 0 <= k < v.tags.len() && v.tags[k] == nt[i];
            }
            assert(self@ =~= (FolkView { tags: v.tags.filter(tag_other_than(id)), ..v }));
        }
    }

    /// Replay events onto this state, returning the result.
    ///
    /// Never mutates its receiver. `curators` is carried through untouched:
    /// no event changes it, so the caller must fold onto a state that already
    /// has the right curator set.
    pub fn fold(&self, events: &[Event]) -> (r: Folksonomy)
        requires
            self.wf(),
            forall|i: int| 0 <= i < events@.len() ==> replayable(#[trigger] events@[i]@),
        ensures
            r.wf(),
            r@ == fold_events(self@, events_view(events@)),
    {
        let mut next = self.clone();
        let mut i: usize = 0;
        while i < events.len()
            invariant
                i <= events@.len(),
                next.wf(),
                next@ == fold_events(self@, events_view(events@).take(i as int)),
                forall|k: int| 0 <= k < events@.len() ==> replayable(#[trigger] events@[k]@),
            decreases events@.len() - i,
        {
            next.replay(&events[i]);
            proof {
                let es = events_view(events@);
                assert(es.take(i + 1).drop_last() =~= es.take(i as int));
                assert(es.take(i + 1).last() == events@[i as int]@);
            }
            i = i + 1;
        }
        proof {
            assert(events_view(events@).take(events@.len() as int) =~= events_view(events@));
        }
        next
    }
}

impl Clone for Folksonomy {
    fn clone(&self) -> (r: Self)
        ensures
            r@ == self@,
    {
        let tags = self.tags.clone();
        let bindings = self.bindings.clone();
        let curators = self.curators.clone();
        let r = Folksonomy { next_tag_id: self.next_tag_id, tags, bindings, curators };
        proof {
            assert(tags_view(r.tags@) =~= tags_view(self.tags@));
            assert(bindings_view(r.bindings@) =~= bindings_view(self.bindings@));
            assert(super::actors_view(r.curators@) =~= super::actors_view(self.curators@));
        }
        r
    }
}

/// Folding is splittable: folding two lists one after the other is folding
/// their concatenation; folding nothing changes nothing.
pub proof fn law_fold_split(v: FolkView, a: Seq<EventView>, b: Seq<EventView>)
    ensures
        fold_events(v, a + b) == fold_events(fold_events(v, a), b),
        fold_events(v, Seq::<EventView>::empty()) == v,
    decreases b.len(),
{
    if b.len() == 0 {
        assert(a + b =~= a);
    } else {
        assert((a + b).drop_last() =~= a + b.drop_last());
        assert((a + b).last() == b.last());
        law_fold_split(v, a, b.drop_last());
    }
}

/// Folding carries the curators through untouched: no event changes them.
pub proof fn law_fold_keeps_curators(v: FolkView, es: Seq<EventView>)
    ensures
        fold_events(v, es).curators == v.curators,
    decreases es.len(),
{
    if es.len() > 0 {
        law_fold_keeps_curators(v, es.drop_last());
    }
}

/// Folding never winds the id counter back: no replay can hand out an id
/// again.
pub proof fn law_fold_keeps_counter(v: FolkView, es: Seq<EventView>)
    requires
        forall|k: int| 0 <= k < es.len() ==> replayable(#[trigger] es[k]),
    ensures
        fold_events(v, es).next_tag_id >= v.next_tag_id,
    decreases es.len(),
{
    if es.len() > 0 {
        let r = es.drop_last();
        assert forall|k: int| 0 <= k < r.len() implies replayable(#[trigger] r[k]) by {
            assert(r[k] == es[k]);
        }
        law_fold_keeps_counter(v, r);
        assert(replayable(es[es.len() - 1]));
    }
}

} // verus!
