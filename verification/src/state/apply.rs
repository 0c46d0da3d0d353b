//! The pure transition.

use vstd::prelude::*;

use super::collections::{bindings_find, ids_contains, labels_contains, tags_find};
use super::fold::{fold_events, id_set, id_set_of, replayable};
use super::graph::{has_cycle, reaches};
use super::load::defects;
use super::read::{
    first_where, has_bindings, has_children, lemma_first_where_found, lemma_first_where_none,
    resolve_normalized,
};
use super::valid::{lemma_apply_keeps_valid, lemma_valid_iff_no_defects};
use super::{
    ids_view, labels_view, probe, same_key, BindingView, FolkView, Folksonomy, TagView, Visibility,
};
use crate::action::{Action, ActionView};
use crate::error::{FolkError, FolkErrorView};
use crate::event::{events_view, Event, EventView};
use crate::ids::{ActorId, ItemId, TagId};
use crate::label::{normalize_label, normalized};

verus! {

/// Result of a successful `apply`: the next state and, in order, every event
/// the action produced.
#[derive(Debug, PartialEq, Eq)]
pub struct Transition {
    /// The next state.
    pub state: Folksonomy,
    /// What happened, in order.
    pub events: Vec<Event>,
}

impl Clone for Transition {
    fn clone(&self) -> (r: Self)
        ensures
            r.state@ == self.state@,
            events_view(r.events@) == events_view(self.events@),
    {
        let events = self.events.clone();
        proof {
            assert(events_view(events@) =~= events_view(self.events@));
        }
        Transition { state: self.state.clone(), events }
    }
}

/// The normalized label if it is non-empty and no tag other than `owner`
/// owns it; else why not.
pub open spec fn label_check(v: FolkView, label: Seq<char>, owner: Option<u64>) -> Result<
    Seq<char>,
    FolkErrorView,
> {
    let norm = normalized(label);
    if norm.len() == 0 {
        Err(FolkErrorView::InvalidLabel(label))
    } else {
        match resolve_normalized(v, norm) {
            Some(t) => if owner == Some(t) {
                Ok(norm)
            } else {
                Err(FolkErrorView::DuplicateLabel(t))
            },
            None => Ok(norm),
        }
    }
}

/// Ids naming no tag.
pub open spec fn missing_in(v: FolkView) -> spec_fn(u64) -> bool {
    |id: u64| !v.has_tag(id)
}

/// Bindings with the identity of `k`.
pub open spec fn same_key_as(k: BindingView) -> spec_fn(BindingView) -> bool {
    |b: BindingView| same_key(b, k)
}

/// `DefineTag`: a fresh tag with the next id, the normalized label and the
/// parent set, once the label is free and every parent exists (the first
/// missing parent in id order is reported).
pub open spec fn define_spec(v: FolkView, actor: Seq<char>, label: Seq<char>, parents: Seq<u64>) -> Result<
    Seq<EventView>,
    FolkErrorView,
> {
    match label_check(v, label, None) {
        Err(e) => Err(e),
        Ok(norm) => {
            let ps = id_set(parents);
            match first_where(ps, missing_in(v)) {
                Some(p) => Err(FolkErrorView::UnknownTag(p)),
                None => Ok(
                    seq![
                        EventView::TagDefined {
                            tag: v.next_tag_id,
                            label: norm,
                            parents: ps,
                            by: actor,
                        },
                    ],
                ),
            }
        },
    }
}

/// `RenameTag`: the tag must exist and the new label be free (the tag's own
/// labels are free to it); renaming to the current label is a silent no-op.
pub open spec fn rename_spec(v: FolkView, actor: Seq<char>, tag: u64, label: Seq<char>) -> Result<
    Seq<EventView>,
    FolkErrorView,
> {
    if !v.has_tag(tag) {
        Err(FolkErrorView::UnknownTag(tag))
    } else {
        match label_check(v, label, Some(tag)) {
            Err(e) => Err(e),
            Ok(norm) => if v.tag(tag).label == norm {
                Ok(Seq::empty())
            } else {
                Ok(
                    seq![
                        EventView::TagRenamed {
                            tag,
                            old_label: v.tag(tag).label,
                            new_label: norm,
                            by: actor,
                        },
                    ],
                )
            },
        }
    }
}

/// `AddAlias`: the tag must exist and the alias be free; an alias the tag
/// already has, or its own label, is a silent no-op.
pub open spec fn add_alias_spec(v: FolkView, actor: Seq<char>, tag: u64, alias: Seq<char>) -> Result<
    Seq<EventView>,
    FolkErrorView,
> {
    if !v.has_tag(tag) {
        Err(FolkErrorView::UnknownTag(tag))
    } else {
        match label_check(v, alias, Some(tag)) {
            Err(e) => Err(e),
            Ok(norm) => if v.tag(tag).label == norm || v.tag(tag).aliases.contains(norm) {
                Ok(Seq::empty())
            } else {
                Ok(seq![EventView::AliasAdded { tag, alias: norm, by: actor }])
            },
        }
    }
}

/// `RemoveAlias`: the tag must exist and own the (normalized) alias.
pub open spec fn remove_alias_spec(v: FolkView, actor: Seq<char>, tag: u64, alias: Seq<char>) -> Result<
    Seq<EventView>,
    FolkErrorView,
> {
    let norm = normalized(alias);
    if !v.has_tag(tag) {
        Err(FolkErrorView::UnknownTag(tag))
    } else if !v.tag(tag).aliases.contains(norm) {
        Err(FolkErrorView::NotPresent)
    } else {
        Ok(seq![EventView::AliasRemoved { tag, alias: norm, by: actor }])
    }
}

/// `AddParent`: both tags must exist; an existing edge is a silent no-op;
/// an edge that would close a cycle (the child is the parent or one of its
/// ancestors) is refused.
pub open spec fn add_parent_spec(v: FolkView, actor: Seq<char>, child: u64, parent: u64) -> Result<
    Seq<EventView>,
    FolkErrorView,
> {
    if !v.has_tag(child) {
        Err(FolkErrorView::UnknownTag(child))
    } else if !v.has_tag(parent) {
        Err(FolkErrorView::UnknownTag(parent))
    } else if v.tag(child).parents.contains(parent) {
        Ok(Seq::empty())
    } else if child == parent || reaches(v, true, parent, child) {
        Err(FolkErrorView::WouldCycle)
    } else {
        Ok(seq![EventView::ParentAdded { child, parent, by: actor }])
    }
}

/// `RemoveParent`: both tags must exist (the parent is checked first) and
/// the edge must be there.
pub open spec fn remove_parent_spec(v: FolkView, actor: Seq<char>, child: u64, parent: u64) -> Result<
    Seq<EventView>,
    FolkErrorView,
> {
    if !v.has_tag(parent) {
        Err(FolkErrorView::UnknownTag(parent))
    } else if !v.has_tag(child) {
        Err(FolkErrorView::UnknownTag(child))
    } else if !v.tag(child).parents.contains(parent) {
        Err(FolkErrorView::NotPresent)
    } else {
        Ok(seq![EventView::ParentRemoved { child, parent, by: actor }])
    }
}

/// `RetireTag`: the tag must exist and have no bindings and no children.
pub open spec fn retire_spec(v: FolkView, actor: Seq<char>, tag: u64) -> Result<
    Seq<EventView>,
    FolkErrorView,
> {
    if !v.has_tag(tag) {
        Err(FolkErrorView::UnknownTag(tag))
    } else if has_bindings(v, tag) || has_children(v, tag) {
        Err(FolkErrorView::TagInUse(tag))
    } else {
        Ok(seq![EventView::TagRetired { tag, label: v.tag(tag).label, by: actor }])
    }
}

/// `Tag`: the tag must exist; a new binding is reported as tagged, a changed
/// visibility as such, and an identical binding not at all.
pub open spec fn tag_spec(
    v: FolkView,
    actor: Seq<char>,
    item: Seq<char>,
    tag: u64,
    visibility: Visibility,
) -> Result<Seq<EventView>, FolkErrorView> {
    if !v.has_tag(tag) {
        Err(FolkErrorView::UnknownTag(tag))
    } else {
        match first_where(v.bindings, same_key_as(probe(item, tag, actor))) {
            Some(b) => if b.visibility == visibility {
                Ok(Seq::empty())
            } else {
                Ok(
                    seq![
                        EventView::VisibilityChanged { item, tag, tagger: actor, visibility },
                    ],
                )
            },
            None => Ok(seq![EventView::Tagged { item, tag, tagger: actor, visibility }]),
        }
    }
}

/// `Untag`: the tag must exist; removing another tagger's binding takes a
/// curator; the binding must exist.
pub open spec fn untag_spec(
    v: FolkView,
    actor: Seq<char>,
    item: Seq<char>,
    tag: u64,
    tagger: Option<Seq<char>>,
) -> Result<Seq<EventView>, FolkErrorView> {
    let who = match tagger {
        Some(a) => a,
        None => actor,
    };
    if !v.has_tag(tag) {
        Err(FolkErrorView::UnknownTag(tag))
    } else if who != actor && !v.is_curator(actor) {
        Err(FolkErrorView::NotAuthorized)
    } else {
        match first_where(v.bindings, same_key_as(probe(item, tag, who))) {
            None => Err(FolkErrorView::NotBound),
            Some(b) => Ok(
                seq![
                    EventView::Untagged { item, tag, tagger: who, visibility: b.visibility },
                ],
            ),
        }
    }
}

/// A tag that lists `source` as a parent and is not `source` itself.
pub open spec fn child_of(source: u64) -> spec_fn(TagView) -> bool {
    |t: TagView| t.id != source && t.parents.contains(source)
}

/// Bindings of this tag.
pub open spec fn bound_to(tag: u64) -> spec_fn(BindingView) -> bool {
    |b: BindingView| b.tag == tag
}

/// Merge, step 1: each child of `source` loses that edge and, unless it is
/// `into` or already under it, gains an edge to `into`.
pub open spec fn child_edge_events(cs: Seq<TagView>, source: u64, into: u64, by: Seq<char>) -> Seq<
    EventView,
>
    decreases cs.len(),
{
    if cs.len() == 0 {
        Seq::empty()
    } else {
        let c = cs.last();
        child_edge_events(cs.drop_last(), source, into, by) + seq![
            EventView::ParentRemoved { child: c.id, parent: source, by },
        ] + if c.id != into && !c.parents.contains(into) {
            seq![EventView::ParentAdded { child: c.id, parent: into, by }]
        } else {
            Seq::empty()
        }
    }
}

/// Merge, step 2: `into` gains each parent of `source` that is not `into`
/// itself and not already among `held`, its parents once step 1 is done.
pub open spec fn parent_edge_events(ps: Seq<u64>, into: u64, held: Seq<u64>, by: Seq<char>) -> Seq<
    EventView,
>
    decreases ps.len(),
{
    if ps.len() == 0 {
        Seq::empty()
    } else {
        let p = ps.last();
        parent_edge_events(ps.drop_last(), into, held, by) + if p != into && !held.contains(p) {
            seq![EventView::ParentAdded { child: into, parent: p, by }]
        } else {
            Seq::empty()
        }
    }
}

/// Merge, step 3: each of `source`'s labels (preferred first, then aliases)
/// that `into` does not already carry becomes an alias of `into`.
pub open spec fn alias_events(ls: Seq<Seq<char>>, into: TagView, by: Seq<char>) -> Seq<EventView>
    decreases ls.len(),
{
    if ls.len() == 0 {
        Seq::empty()
    } else {
        let a = ls.last();
        alias_events(ls.drop_last(), into, by) + if a != into.label && !into.aliases.contains(a)
            && !ls.drop_last().contains(a) {
            seq![EventView::AliasAdded { tag: into.id, alias: a, by }]
        } else {
            Seq::empty()
        }
    }
}

/// Whether `into` already carries a binding by the same tagger on the same
/// item as `m`.
pub open spec fn target_taken(v: FolkView, m: BindingView, into: u64) -> bool {
    exists|j: int| 0 <= j < v.bindings.len() && same_key(v.bindings[j], probe(m.item, into, m.tagger))
}

/// Merge, step 4: each binding of `source` is untagged, and re-tagged on
/// `into` unless that binding already exists there.
pub open spec fn binding_events(ms: Seq<BindingView>, v: FolkView, source: u64, into: u64) -> Seq<
    EventView,
>
    decreases ms.len(),
{
    if ms.len() == 0 {
        Seq::empty()
    } else {
        let m = ms.last();
        binding_events(ms.drop_last(), v, source, into) + seq![
            EventView::Untagged {
                item: m.item,
                tag: source,
                tagger: m.tagger,
                visibility: m.visibility,
            },
        ] + if target_taken(v, m, into) {
            Seq::empty()
        } else {
            seq![
                EventView::Tagged {
                    item: m.item,
                    tag: into,
                    tagger: m.tagger,
                    visibility: m.visibility,
                },
            ]
        }
    }
}

/// How many of the bindings are re-tagged on `into`.
pub open spec fn moved_count(ms: Seq<BindingView>, v: FolkView, into: u64) -> nat
    decreases ms.len(),
{
    if ms.len() == 0 {
        0
    } else {
        moved_count(ms.drop_last(), v, into) + if target_taken(v, ms.last(), into) {
            0nat
        } else {
            1nat
        }
    }
}

/// The edge events of a merge (steps 1 and 2).
pub open spec fn merge_edge_events(v: FolkView, by: Seq<char>, source: u64, into: u64) -> Seq<
    EventView,
> {
    child_edge_events(v.tags.filter(child_of(source)), source, into, by) + parent_edge_events(
        v.tag(source).parents,
        into,
        v.tag(into).parents.filter(crate::sorted::other_than(source)),
        by,
    )
}

/// A state with one tag gone.
pub open spec fn without_tag(v: FolkView, id: u64) -> FolkView {
    FolkView { tags: v.tags.filter(super::tag_other_than(id)), ..v }
}

/// Every event of an accepted merge, in order: edges, labels, bindings, and
/// last the summary.
pub open spec fn merge_events(v: FolkView, by: Seq<char>, source: u64, into: u64) -> Seq<EventView> {
    let src = v.tag(source);
    let ms = v.bindings.filter(bound_to(source));
    merge_edge_events(v, by, source, into) + alias_events(
        seq![src.label] + src.aliases,
        v.tag(into),
        by,
    ) + binding_events(ms, v, source, into) + seq![
        EventView::TagsMerged {
            source,
            into,
            moved_bindings: moved_count(ms, v, into) as u32,
            by,
        },
    ]
}

/// `MergeTags`: `into` must exist, differ from `source`, and `source` must
/// exist; the merge is refused when the vocabulary after rewiring the edges
/// (without `source`) would be cyclic.
pub open spec fn merge_spec(v: FolkView, actor: Seq<char>, source: u64, into: u64) -> Result<
    Seq<EventView>,
    FolkErrorView,
> {
    if !v.has_tag(into) {
        Err(FolkErrorView::UnknownTag(into))
    } else if source == into {
        Err(FolkErrorView::SelfMerge)
    } else if !v.has_tag(source) {
        Err(FolkErrorView::UnknownTag(source))
    } else if has_cycle(without_tag(fold_events(v, merge_edge_events(v, actor, source, into)), source)) {
        Err(FolkErrorView::WouldCycle)
    } else {
        Ok(merge_events(v, actor, source, into))
    }
}

/// No event of the list defines a tag.
pub open spec fn defines_nothing(es: Seq<EventView>) -> bool {
    forall|k: int| 0 <= k < es.len() ==> !(#[trigger] es[k] is TagDefined)
}

/// Two lists that define nothing, concatenated, define nothing.
pub proof fn lemma_defines_nothing_concat(a: Seq<EventView>, b: Seq<EventView>)
    requires
        defines_nothing(a),
        defines_nothing(b),
    ensures
        defines_nothing(a + b),
{
    assert forall|k: int| 0 <= k < (a + b).len() implies !(#[trigger] (a + b)[k] is TagDefined) by {
        if k < a.len() {
            assert((a + b)[k] == a[k]);
        } else {
            assert((a + b)[k] == b[k - a.len()]);
        }
    }
}

/// Step 1 of a merge defines nothing.
pub proof fn lemma_child_edges_define_nothing(cs: Seq<TagView>, source: u64, into: u64, by: Seq<char>)
    ensures
        defines_nothing(child_edge_events(cs, source, into, by)),
    decreases cs.len(),
{
    if cs.len() > 0 {
        let c = cs.last();
        lemma_child_edges_define_nothing(cs.drop_last(), source, into, by);
        let tail = if c.id != into && !c.parents.contains(into) {
            seq![EventView::ParentAdded { child: c.id, parent: into, by }]
        } else {
            Seq::empty()
        };
        lemma_defines_nothing_concat(
            child_edge_events(cs.drop_last(), source, into, by),
            seq![EventView::ParentRemoved { child: c.id, parent: source, by }],
        );
        lemma_defines_nothing_concat(
            child_edge_events(cs.drop_last(), source, into, by) + seq![
                EventView::ParentRemoved { child: c.id, parent: source, by },
            ],
            tail,
        );
    }
}

/// Step 2 of a merge defines nothing.
pub proof fn lemma_parent_edges_define_nothing(ps: Seq<u64>, into: u64, held: Seq<u64>, by: Seq<char>)
    ensures
        defines_nothing(parent_edge_events(ps, into, held, by)),
    decreases ps.len(),
{
    if ps.len() > 0 {
        let p = ps.last();
        lemma_parent_edges_define_nothing(ps.drop_last(), into, held, by);
        let tail = if p != into && !held.contains(p) {
            seq![EventView::ParentAdded { child: into, parent: p, by }]
        } else {
            Seq::empty()
        };
        lemma_defines_nothing_concat(parent_edge_events(ps.drop_last(), into, held, by), tail);
    }
}

/// Step 3 of a merge defines nothing.
pub proof fn lemma_alias_events_define_nothing(ls: Seq<Seq<char>>, into: TagView, by: Seq<char>)
    ensures
        defines_nothing(alias_events(ls, into, by)),
    decreases ls.len(),
{
    if ls.len() > 0 {
        let a = ls.last();
        lemma_alias_events_define_nothing(ls.drop_last(), into, by);
        let tail = if a != into.label && !into.aliases.contains(a) && !ls.drop_last().contains(a) {
            seq![EventView::AliasAdded { tag: into.id, alias: a, by }]
        } else {
            Seq::empty()
        };
        lemma_defines_nothing_concat(alias_events(ls.drop_last(), into, by), tail);
    }
}

/// Step 4 of a merge defines nothing.
pub proof fn lemma_binding_events_define_nothing(ms: Seq<BindingView>, v: FolkView, source: u64, into: u64)
    ensures
        defines_nothing(binding_events(ms, v, source, into)),
    decreases ms.len(),
{
    if ms.len() > 0 {
        let m = ms.last();
        lemma_binding_events_define_nothing(ms.drop_last(), v, source, into);
        let mid = seq![
            EventView::Untagged {
                item: m.item,
                tag: source,
                tagger: m.tagger,
                visibility: m.visibility,
            },
        ];
        let tail = if target_taken(v, m, into) {
            Seq::empty()
        } else {
            seq![
                EventView::Tagged {
                    item: m.item,
                    tag: into,
                    tagger: m.tagger,
                    visibility: m.visibility,
                },
            ]
        };
        lemma_defines_nothing_concat(binding_events(ms.drop_last(), v, source, into), mid);
        lemma_defines_nothing_concat(binding_events(ms.drop_last(), v, source, into) + mid, tail);
    }
}

/// Bindings moved from a prefix of the bindings are at most those moved from
/// all of them.
pub proof fn lemma_moved_count_prefix(v: FolkView, source: u64, into: u64, j: int)
    requires
        0 <= j <= v.bindings.len(),
    ensures
        moved_count(v.bindings.take(j).filter(bound_to(source)), v, into) <= moved_count(
            v.bindings.filter(bound_to(source)),
            v,
            into,
        ),
    decreases v.bindings.len() - j,
{
    if j == v.bindings.len() {
        assert(v.bindings.take(j) =~= v.bindings);
    } else {
        lemma_moved_count_prefix(v, source, into, j + 1);
        let pre = v.bindings.take(j);
        let b = v.bindings[j];
        assert(v.bindings.take(j + 1) =~= pre.push(b));
        pre.lemma_filter_push(b, bound_to(source));
        if b.tag == source {
            assert(pre.filter(bound_to(source)).push(b).drop_last() =~= pre.filter(bound_to(source)));
        }
    }
}

/// A merge's events define nothing.
pub proof fn lemma_merge_defines_nothing(v: FolkView, by: Seq<char>, source: u64, into: u64)
    ensures
        defines_nothing(merge_edge_events(v, by, source, into)),
        defines_nothing(merge_events(v, by, source, into)),
{
    let src = v.tag(source);
    let ms = v.bindings.filter(bound_to(source));
    let held = v.tag(into).parents.filter(crate::sorted::other_than(source));
    lemma_child_edges_define_nothing(v.tags.filter(child_of(source)), source, into, by);
    lemma_parent_edges_define_nothing(src.parents, into, held, by);
    lemma_defines_nothing_concat(
        child_edge_events(v.tags.filter(child_of(source)), source, into, by),
        parent_edge_events(src.parents, into, held, by),
    );
    let e = merge_edge_events(v, by, source, into);
    let a = alias_events(seq![src.label] + src.aliases, v.tag(into), by);
    let b = binding_events(ms, v, source, into);
    lemma_alias_events_define_nothing(seq![src.label] + src.aliases, v.tag(into), by);
    lemma_binding_events_define_nothing(ms, v, source, into);
    lemma_defines_nothing_concat(e, a);
    lemma_defines_nothing_concat(e + a, b);
    let last = seq![
        EventView::TagsMerged {
            source,
            into,
            moved_bindings: moved_count(ms, v, into) as u32,
            by,
        },
    ];
    lemma_defines_nothing_concat(e + a + b, last);
}

/// What `apply` does with an action: the events it produces, or why the
/// action is refused. Structural actions by a non-curator are refused before
/// anything else is looked at. The next state is always these events folded
/// onto the state.
pub open spec fn apply_spec(v: FolkView, actor: Seq<char>, a: ActionView) -> Result<
    Seq<EventView>,
    FolkErrorView,
> {
    if a.is_structural() && !v.may_edit_structure(actor) {
        Err(FolkErrorView::NotAuthorized)
    } else {
        match a {
            ActionView::DefineTag { label, parents } => define_spec(v, actor, label, parents),
            ActionView::RenameTag { tag, label } => rename_spec(v, actor, tag, label),
            ActionView::AddAlias { tag, alias } => add_alias_spec(v, actor, tag, alias),
            ActionView::RemoveAlias { tag, alias } => remove_alias_spec(v, actor, tag, alias),
            ActionView::AddParent { child, parent } => add_parent_spec(v, actor, child, parent),
            ActionView::RemoveParent { child, parent } => remove_parent_spec(v, actor, child, parent),
            ActionView::MergeTags { source, into } => merge_spec(v, actor, source, into),
            ActionView::RetireTag(tag) => retire_spec(v, actor, tag),
            ActionView::Tag { item, tag, visibility } => tag_spec(v, actor, item, tag, visibility),
            ActionView::Untag { item, tag, tagger } => untag_spec(v, actor, item, tag, tagger),
        }
    }
}

/// The machine limits `apply` works within: a tag id left to allocate, and,
/// for a merge, a count of bindings moved onto `into` that fits the event's
/// `u32`.
pub open spec fn within_limits(v: FolkView, a: ActionView) -> bool {
    &&& a is DefineTag ==> v.next_tag_id < u64::MAX
    &&& a matches ActionView::MergeTags { source, into } ==> moved_count(
        v.bindings.filter(bound_to(source)),
        v,
        into,
    ) <= u32::MAX
}

/// Whatever `apply` accepts produces events that `fold` can replay.
pub proof fn lemma_apply_replayable(v: FolkView, actor: Seq<char>, a: ActionView, es: Seq<EventView>)
    requires
        within_limits(v, a),
        apply_spec(v, actor, a) == Ok::<Seq<EventView>, FolkErrorView>(es),
    ensures
        forall|k: int| 0 <= k < es.len() ==> replayable(#[trigger] es[k]),
{
    if let ActionView::MergeTags { source, into } = a {
        if v.may_edit_structure(actor) {
            lemma_merge_defines_nothing(v, actor, source, into);
        }
    }
}

/// Whether `x` occurs among the first `k` labels.
fn contains_before(v: &Vec<String>, k: usize, x: &String) -> (r: bool)
    requires
        k <= v@.len(),
    ensures
        r == labels_view(v@).take(k as int).contains(x@),
{
    let mut i: usize = 0;
    while i < k
        invariant
            k <= v@.len(),
            i <= k,
            forall|j: int| 0 <= j < i ==> labels_view(v@)[j] != x@,
        decreases k - i,
    {
        if v[i] == *x {
            assert(labels_view(v@).take(k as int)[i as int] == x@);
            return true;
        }
        i = i + 1;
    }
    proof {
        if labels_view(v@).take(k as int).contains(x@) {
            let j = choose|j: int| 0 <= j < k && labels_view(v@).take(k as int)[j] == x@;
            assert(labels_view(v@)[j] == x@);
        }
    }
    false
}

/// An exec result, as values.
pub open spec fn outcome(r: Result<Vec<Event>, FolkError>) -> Result<Seq<EventView>, FolkErrorView> {
    match r {
        Ok(es) => Ok(events_view(es@)),
        Err(e) => Err(e@),
    }
}

impl Folksonomy {
    /// The pure transition. Never mutates `self`; returns the next state and
    /// its events, or why the action was rejected. Rejection leaves nothing
    /// half-applied because nothing was applied.
    pub fn apply(&self, actor: &ActorId, action: Action) -> (r: Result<Transition, FolkError>)
        requires
            self.wf(),
            within_limits(self@, action@),
        ensures
            match r {
                Ok(t) => {
                    &&& apply_spec(self@, actor@, action@) == Ok::<Seq<EventView>, FolkErrorView>(
                        events_view(t.events@),
                    )
                    &&& t.state.wf()
                    &&& t.state@ == fold_events(self@, events_view(t.events@))
                    &&& forall|k: int| 0 <= k < t.events@.len() ==> replayable(#[trigger] t.events@[k]@)
                    &&& defects(self@).len() == 0 ==> defects(t.state@).len() == 0
                },
                Err(e) => apply_spec(self@, actor@, action@) == Err::<Seq<EventView>, FolkErrorView>(e@),
            },
    {
        let ghost a = action@;
        if action.is_structural() && !self.may_edit_structure(actor) {
            return Err(FolkError::NotAuthorized);
        }
        let res = match action {
            Action::DefineTag { label, parents } => self.define_tag(actor, &label, &parents),
            Action::RenameTag { tag, label } => self.rename_tag(actor, tag, &label),
            Action::AddAlias { tag, alias } => self.add_alias(actor, tag, &alias),
            Action::RemoveAlias { tag, alias } => self.remove_alias(actor, tag, &alias),
            Action::AddParent { child, parent } => self.add_parent(actor, child, parent),
            Action::RemoveParent { child, parent } => self.remove_parent(actor, child, parent),
            Action::MergeTags { source, into } => self.merge_tags(actor, source, into),
            Action::RetireTag(tag) => self.retire_tag(actor, tag),
            Action::Tag { item, tag, visibility } => self.tag_item(actor, item, tag, visibility),
            Action::Untag { item, tag, tagger } => self.untag_item(actor, item, tag, tagger),
        };
        assert(outcome(res) == apply_spec(self@, actor@, a));
        match res {
            Err(e) => Err(e),
            Ok(events) => {
                proof {
                    let es = events_view(events@);
                    assert(apply_spec(self@, actor@, a) == Ok::<Seq<EventView>, FolkErrorView>(es));
                    lemma_apply_replayable(self@, actor@, a, es);
                    assert forall|k: int| 0 <= k < events@.len() implies replayable(
                        #[trigger] events@[k]@,
                    ) by {
                        assert(es[k] == events@[k]@);
                        assert(replayable(es[k]));
                    }
                }
                let state = self.fold(events.as_slice());
                proof {
                    let es = events_view(events@);
                    lemma_valid_iff_no_defects(self@);
                    lemma_valid_iff_no_defects(state@);
                    if defects(self@).len() == 0 {
                        lemma_apply_keeps_valid(self@, actor@, a);
                    }
                }
                Ok(Transition { state, events })
            },
        }
    }

    /// The events of `DefineTag`, or why it is refused.
    fn define_tag(&self, actor: &ActorId, label: &String, parents: &Vec<TagId>) -> (r: Result<
        Vec<Event>,
        FolkError,
    >)
        requires
            self.wf(),
        ensures
            outcome(r) == define_spec(self@, actor@, label@, ids_view(parents@)),
    {
        let ghost v = self@;
        let norm = self.free_label(label, None)?;
        let ps = id_set_of(parents);
        let mut k: usize = 0;
        while k < ps.len()
            invariant
                v == self@,
                v.wf(),
                k <= ps@.len(),
                label_check(v, label@, None) == Ok::<Seq<char>, FolkErrorView>(norm@),
                ids_view(ps@) == id_set(ids_view(parents@)),
                forall|j: int| 0 <= j < k ==> !missing_in(v)(#[trigger] ids_view(ps@)[j]),
            decreases ps@.len() - k,
        {
            if tags_find(&self.tags, ps[k].0).is_none() {
                proof {
                    assert(missing_in(v)(ids_view(ps@)[k as int]));
                    lemma_first_where_found(ids_view(ps@), missing_in(v), k as int);
                }
                return Err(FolkError::UnknownTag(ps[k]));
            }
            proof {
                assert(!missing_in(v)(ids_view(ps@)[k as int]));
            }
            k = k + 1;
        }
        proof {
            lemma_first_where_none(ids_view(ps@), missing_in(v));
        }
        let ev = Event::TagDefined {
            tag: TagId(self.next_tag_id),
            label: norm,
            parents: ps,
            by: actor.clone(),
        };
        let mut out: Vec<Event> = Vec::new();
        out.push(ev);
        proof {
            assert(events_view(out@) =~= seq![ev@]);
        }
        Ok(out)
    }

    /// One event, alone.
    fn single(e: Event) -> (r: Vec<Event>)
        ensures
            events_view(r@) == seq![e@],
    {
        let mut out: Vec<Event> = Vec::new();
        let ghost ev = e@;
        out.push(e);
        proof {
            assert(events_view(out@) =~= seq![ev]);
        }
        out
    }

    /// No events.
    fn none() -> (r: Vec<Event>)
        ensures
            events_view(r@) == Seq::<EventView>::empty(),
    {
        let out: Vec<Event> = Vec::new();
        proof {
            assert(events_view(out@) =~= Seq::<EventView>::empty());
        }
        out
    }

    /// The events of `RenameTag`, or why it is refused.
    fn rename_tag(&self, actor: &ActorId, tag: TagId, label: &String) -> (r: Result<
        Vec<Event>,
        FolkError,
    >)
        requires
            self.wf(),
        ensures
            outcome(r) == rename_spec(self@, actor@, tag.0, label@),
    {
        let t = self.require(tag)?;
        let norm = self.free_label(label, Some(tag))?;
        if t.label == norm {
            return Ok(Self::none());
        }
        Ok(
            Self::single(
                Event::TagRenamed {
                    tag,
                    old_label: t.label.clone(),
                    new_label: norm,
                    by: actor.clone(),
                },
            ),
        )
    }

    /// The events of `AddAlias`, or why it is refused.
    fn add_alias(&self, actor: &ActorId, tag: TagId, alias: &String) -> (r: Result<
        Vec<Event>,
        FolkError,
    >)
        requires
            self.wf(),
        ensures
            outcome(r) == add_alias_spec(self@, actor@, tag.0, alias@),
    {
        let t = self.require(tag)?;
        let norm = self.free_label(alias, Some(tag))?;
        if t.label == norm || labels_contains(&t.aliases, &norm) {
            return Ok(Self::none());
        }
        Ok(Self::single(Event::AliasAdded { tag, alias: norm, by: actor.clone() }))
    }

    /// The events of `RemoveAlias`, or why it is refused.
    fn remove_alias(&self, actor: &ActorId, tag: TagId, alias: &String) -> (r: Result<
        Vec<Event>,
        FolkError,
    >)
        requires
            self.wf(),
        ensures
            outcome(r) == remove_alias_spec(self@, actor@, tag.0, alias@),
    {
        let norm = normalize_label(alias.as_str());
        let t = self.require(tag)?;
        if !labels_contains(&t.aliases, &norm) {
            return Err(FolkError::NotPresent);
        }
        Ok(Self::single(Event::AliasRemoved { tag, alias: norm, by: actor.clone() }))
    }

    /// The events of `AddParent`, or why it is refused.
    fn add_parent(&self, actor: &ActorId, child: TagId, parent: TagId) -> (r: Result<
        Vec<Event>,
        FolkError,
    >)
        requires
            self.wf(),
        ensures
            outcome(r) == add_parent_spec(self@, actor@, child.0, parent.0),
    {
        let c = self.require(child)?;
        self.require(parent)?;
        if ids_contains(&c.parents, parent.0) {
            return Ok(Self::none());
        }
        if self.edge_would_cycle(child, parent) {
            return Err(FolkError::WouldCycle);
        }
        Ok(Self::single(Event::ParentAdded { child, parent, by: actor.clone() }))
    }

    /// The events of `RemoveParent`, or why it is refused.
    fn remove_parent(&self, actor: &ActorId, child: TagId, parent: TagId) -> (r: Result<
        Vec<Event>,
        FolkError,
    >)
        requires
            self.wf(),
        ensures
            outcome(r) == remove_parent_spec(self@, actor@, child.0, parent.0),
    {
        self.require(parent)?;
        let c = self.require(child)?;
        if !ids_contains(&c.parents, parent.0) {
            return Err(FolkError::NotPresent);
        }
        Ok(Self::single(Event::ParentRemoved { child, parent, by: actor.clone() }))
    }

    /// The events of `RetireTag`, or why it is refused.
    fn retire_tag(&self, actor: &ActorId, tag: TagId) -> (r: Result<Vec<Event>, FolkError>)
        requires
            self.wf(),
        ensures
            outcome(r) == retire_spec(self@, actor@, tag.0),
    {
        let t = self.require(tag)?;
        if self.has_bindings(tag) || self.has_children(tag) {
            return Err(FolkError::TagInUse(tag));
        }
        Ok(Self::single(Event::TagRetired { tag, label: t.label.clone(), by: actor.clone() }))
    }

    /// The binding with identity `(item, tag, tagger)`, as `first_where` sees it.
    fn binding_of(&self, item: &ItemId, tag: TagId, tagger: &ActorId) -> (r: Option<Visibility>)
        requires
            self.wf(),
        ensures
            match first_where(self@.bindings, same_key_as(probe(item@, tag.0, tagger@))) {
                Some(b) => r == Some(b.visibility),
                None => r is None,
            },
    {
        let ghost v = self@;
        let ghost k = probe(item@, tag.0, tagger@);
        match bindings_find(&self.bindings, item, tag, tagger) {
            Some(i) => {
                proof {
                    assert forall|j: int| 0 <= j < i implies !same_key_as(k)(#[trigger] v.bindings[j]) by {
                        if same_key(v.bindings[j], k) {
                            assert(super::binding_lt()(v.bindings[j], v.bindings[i as int]));
                            crate::text::lemma_chars_order();
                        }
                    }
                    lemma_first_where_found(v.bindings, same_key_as(k), i as int);
                }
                Some(self.bindings[i].visibility)
            },
            None => {
                proof {
                    lemma_first_where_none(v.bindings, same_key_as(k));
                }
                None
            },
        }
    }

    /// The events of `Tag`, or why it is refused.
    fn tag_item(&self, actor: &ActorId, item: ItemId, tag: TagId, visibility: Visibility) -> (r: Result<
        Vec<Event>,
        FolkError,
    >)
        requires
            self.wf(),
        ensures
            outcome(r) == tag_spec(self@, actor@, item@, tag.0, visibility),
    {
        self.require(tag)?;
        match self.binding_of(&item, tag, actor) {
            Some(prev) => {
                if prev == visibility {
                    Ok(Self::none())
                } else {
                    Ok(
                        Self::single(
                            Event::VisibilityChanged {
                                item,
                                tag,
                                tagger: actor.clone(),
                                visibility,
                            },
                        ),
                    )
                }
            },
            None => Ok(Self::single(Event::Tagged { item, tag, tagger: actor.clone(), visibility })),
        }
    }

    /// The events of `Untag`, or why it is refused.
    fn untag_item(&self, actor: &ActorId, item: ItemId, tag: TagId, tagger: Option<ActorId>) -> (r:
        Result<Vec<Event>, FolkError>)
        requires
            self.wf(),
        ensures
            outcome(r) == untag_spec(
                self@,
                actor@,
                item@,
                tag.0,
                match tagger {
                    Some(a) => Some(a@),
                    None => None,
                },
            ),
    {
        self.require(tag)?;
        let who = match tagger {
            Some(a) => a,
            None => actor.clone(),
        };
        if !who.same(actor) && !self.is_curator(actor) {
            return Err(FolkError::NotAuthorized);
        }
        match self.binding_of(&item, tag, &who) {
            None => Err(FolkError::NotBound),
            Some(vis) => Ok(Self::single(Event::Untagged { item, tag, tagger: who, visibility: vis })),
        }
    }

    /// Merge, step 1: the edge events of `source`'s children.
    fn merge_child_edges(&self, actor: &ActorId, source: TagId, into: TagId) -> (r: Vec<Event>)
        requires
            self.wf(),
        ensures
            events_view(r@) == child_edge_events(
                self@.tags.filter(child_of(source.0)),
                source.0,
                into.0,
                actor@,
            ),
    {
        let ghost v = self@;
        let mut out: Vec<Event> = Vec::new();
        let mut i: usize = 0;
        proof {
            assert(v.tags.take(0) =~= Seq::<TagView>::empty());
            assert(events_view(out@) =~= Seq::<EventView>::empty());
            crate::sorted::lemma_filter_none(Seq::<TagView>::empty(), child_of(source.0));
        }
        while i < self.tags.len()
            invariant
                v == self@,
                i <= self.tags@.len(),
                events_view(out@) == child_edge_events(
                    v.tags.take(i as int).filter(child_of(source.0)),
                    source.0,
                    into.0,
                    actor@,
                ),
            decreases self.tags@.len() - i,
        {
            let t = &self.tags[i];
            let ghost tv = v.tags[i as int];
            proof {
                assert(v.tags.take(i + 1) =~= v.tags.take(i as int).push(tv));
                v.tags.take(i as int).lemma_filter_push(tv, child_of(source.0));
            }
            if t.id.0 != source.0 && ids_contains(&t.parents, source.0) {
                let ghost before = events_view(out@);
                let ghost cs = v.tags.take(i + 1).filter(child_of(source.0));
                out.push(Event::ParentRemoved { child: t.id, parent: source, by: actor.clone() });
                if t.id.0 != into.0 && !ids_contains(&t.parents, into.0) {
                    out.push(Event::ParentAdded { child: t.id, parent: into, by: actor.clone() });
                }
                proof {
                    assert(cs.drop_last() =~= v.tags.take(i as int).filter(child_of(source.0)));
                    assert(cs.last() == tv);
                    assert(events_view(out@) =~= child_edge_events(cs, source.0, into.0, actor@));
                }
            }
            i = i + 1;
        }
        proof {
            assert(v.tags.take(v.tags.len() as int) =~= v.tags);
        }
        out
    }

    /// Merge, step 2: the edge events that give `into` `source`'s parents.
    fn merge_parent_edges(&self, actor: &ActorId, src: &super::Tag, target: &super::Tag, source: TagId, into: TagId) -> (r: Vec<Event>)
        ensures
            events_view(r@) == parent_edge_events(
                src@.parents,
                into.0,
                target@.parents.filter(crate::sorted::other_than(source.0)),
                actor@,
            ),
    {
        let ghost held = target@.parents.filter(crate::sorted::other_than(source.0));
        let mut out: Vec<Event> = Vec::new();
        let mut i: usize = 0;
        proof {
            assert(src@.parents.take(0) =~= Seq::<u64>::empty());
            assert(events_view(out@) =~= Seq::<EventView>::empty());
        }
        while i < src.parents.len()
            invariant
                i <= src@.parents.len(),
                held == target@.parents.filter(crate::sorted::other_than(source.0)),
                events_view(out@) == parent_edge_events(src@.parents.take(i as int), into.0, held, actor@),
            decreases src@.parents.len() - i,
        {
            let p = src.parents[i];
            let ghost ps = src@.parents.take(i + 1);
            proof {
                assert(ps.drop_last() =~= src@.parents.take(i as int));
                assert(ps.last() == p.0);
                crate::sorted::lemma_filter_contains_iff(
                    target@.parents,
                    crate::sorted::other_than(source.0),
                    p.0,
                );
            }
            if p.0 != into.0 && (p.0 == source.0 || !ids_contains(&target.parents, p.0)) {
                out.push(Event::ParentAdded { child: into, parent: p, by: actor.clone() });
            }
            proof {
                assert(events_view(out@) =~= parent_edge_events(ps, into.0, held, actor@));
            }
            i = i + 1;
        }
        proof {
            assert(src@.parents.take(src@.parents.len() as int) =~= src@.parents);
        }
        out
    }

    /// Merge, step 3: the alias events that give `into` `source`'s labels.
    fn merge_aliases(&self, actor: &ActorId, src: &super::Tag, target: &super::Tag) -> (r: Vec<Event>)
        ensures
            events_view(r@) == alias_events(seq![src@.label] + src@.aliases, target@, actor@),
    {
        let mut ls: Vec<String> = Vec::new();
        ls.push(src.label.clone());
        let mut more = src.aliases.clone();
        ls.append(&mut more);
        let ghost lsv = seq![src@.label] + src@.aliases;
        proof {
            assert(labels_view(ls@) =~= lsv);
        }
        let mut out: Vec<Event> = Vec::new();
        let mut k: usize = 0;
        proof {
            assert(lsv.take(0) =~= Seq::<Seq<char>>::empty());
            assert(events_view(out@) =~= Seq::<EventView>::empty());
        }
        while k < ls.len()
            invariant
                k <= ls@.len(),
                labels_view(ls@) == lsv,
                events_view(out@) == alias_events(lsv.take(k as int), target@, actor@),
            decreases ls@.len() - k,
        {
            let a = &ls[k];
            let ghost pre = lsv.take(k + 1);
            proof {
                assert(pre.drop_last() =~= lsv.take(k as int));
                assert(pre.last() == a@);
            }
            let seen_before = contains_before(&ls, k, a);
            if target.label != *a && !labels_contains(&target.aliases, a) && !seen_before {
                out.push(Event::AliasAdded { tag: target.id, alias: a.clone(), by: actor.clone() });
            }
            proof {
                assert(events_view(out@) =~= alias_events(pre, target@, actor@));
            }
            k = k + 1;
        }
        proof {
            assert(lsv.take(lsv.len() as int) =~= lsv);
        }
        out
    }

    /// Merge, step 4: the binding events that move `source`'s bindings, and
    /// how many moved.
    fn merge_bindings(&self, source: TagId, into: TagId) -> (r: (Vec<Event>, u32))
        requires
            self.wf(),
            moved_count(self@.bindings.filter(bound_to(source.0)), self@, into.0) <= u32::MAX,
        ensures
            events_view(r.0@) == binding_events(
                self@.bindings.filter(bound_to(source.0)),
                self@,
                source.0,
                into.0,
            ),
            r.1 == moved_count(self@.bindings.filter(bound_to(source.0)), self@, into.0),
    {
        let ghost v = self@;
        let mut out: Vec<Event> = Vec::new();
        let mut moved: u32 = 0;
        let mut i: usize = 0;
        proof {
            assert(v.bindings.take(0) =~= Seq::<BindingView>::empty());
            assert(events_view(out@) =~= Seq::<EventView>::empty());
            crate::sorted::lemma_filter_none(Seq::<BindingView>::empty(), bound_to(source.0));
        }
        while i < self.bindings.len()
            invariant
                v == self@,
                v.wf(),
                moved_count(v.bindings.filter(bound_to(source.0)), v, into.0) <= u32::MAX,
                i <= self.bindings@.len(),
                events_view(out@) == binding_events(
                    v.bindings.take(i as int).filter(bound_to(source.0)),
                    v,
                    source.0,
                    into.0,
                ),
                moved == moved_count(v.bindings.take(i as int).filter(bound_to(source.0)), v, into.0),
            decreases self.bindings@.len() - i,
        {
            let b = &self.bindings[i];
            let ghost bv = v.bindings[i as int];
            let ghost before = v.bindings.take(i as int).filter(bound_to(source.0));
            proof {
                assert(v.bindings.take(i + 1) =~= v.bindings.take(i as int).push(bv));
                v.bindings.take(i as int).lemma_filter_push(bv, bound_to(source.0));
                lemma_moved_count_prefix(v, source.0, into.0, i + 1);
            }
            if b.tag.0 == source.0 {
                let ghost ms = v.bindings.take(i + 1).filter(bound_to(source.0));
                out.push(
                    Event::Untagged {
                        item: b.item.clone(),
                        tag: source,
                        tagger: b.tagger.clone(),
                        visibility: b.visibility,
                    },
                );
                let taken = bindings_find(&self.bindings, &b.item, into, &b.tagger);
                proof {
                    assert(ms.drop_last() =~= before);
                    assert(ms.last() == bv);
                    assert(moved_count(ms, v, into.0) <= u32::MAX);
                    match taken {
                        Some(j) => {
                            assert(target_taken(v, bv, into.0));
                        },
                        None => {
                            assert(!target_taken(v, bv, into.0));
                        },
                    }
                }
                if taken.is_none() {
                    out.push(
                        Event::Tagged {
                            item: b.item.clone(),
                            tag: into,
                            tagger: b.tagger.clone(),
                            visibility: b.visibility,
                        },
                    );
                    moved = moved + 1;
                }
                proof {
                    assert(events_view(out@) =~= binding_events(ms, v, source.0, into.0));
                }
            }
            i = i + 1;
        }
        proof {
            assert(v.bindings.take(v.bindings.len() as int) =~= v.bindings);
        }
        (out, moved)
    }

    /// The events of `MergeTags`, or why it is refused.
    fn merge_tags(&self, actor: &ActorId, source: TagId, into: TagId) -> (r: Result<
        Vec<Event>,
        FolkError,
    >)
        requires
            self.wf(),
            moved_count(self@.bindings.filter(bound_to(source.0)), self@, into.0) <= u32::MAX,
        ensures
            outcome(r) == merge_spec(self@, actor@, source.0, into.0),
    {
        let ghost v = self@;
        let target = self.require(into)?;
        if source.0 == into.0 {
            return Err(FolkError::SelfMerge);
        }
        let src = self.require(source)?;
        let mut events = self.merge_child_edges(actor, source, into);
        let mut pe = self.merge_parent_edges(actor, src, target, source, into);
        let ghost e1 = events_view(events@);
        let ghost e2 = events_view(pe@);
        events.append(&mut pe);
        proof {
            assert(events_view(events@) =~= e1 + e2);
            assert(events_view(events@) == merge_edge_events(v, actor@, source.0, into.0));
            lemma_merge_defines_nothing(v, actor@, source.0, into.0);
            assert forall|k: int| 0 <= k < events@.len() implies replayable(#[trigger] events@[k]@) by {
                assert(events_view(events@)[k] == events@[k]@);
            }
        }
        let mut mid = self.fold(events.as_slice());
        mid.drop_tag(source.0);
        if mid.has_cycle() {
            return Err(FolkError::WouldCycle);
        }
        let mut ae = self.merge_aliases(actor, src, target);
        let ghost e3 = events_view(ae@);
        events.append(&mut ae);
        let (mut be, moved) = self.merge_bindings(source, into);
        let ghost e4 = events_view(be@);
        let ghost before = events_view(events@);
        events.append(&mut be);
        events.push(Event::TagsMerged { source, into, moved_bindings: moved, by: actor.clone() });
        proof {
            assert(events_view(events@) =~= merge_events(v, actor@, source.0, into.0));
        }
        Ok(events)
    }

    /// The normalized label, or `InvalidLabel` when it normalizes to nothing.
    fn valid_label(label: &String) -> (r: Result<String, FolkError>)
        ensures
            match r {
                Ok(n) => n@ == normalized(label@) && n@.len() > 0,
                Err(e) => normalized(label@).len() == 0 && e@ == FolkErrorView::InvalidLabel(
                    label@,
                ),
            },
    {
        let norm = normalize_label(label.as_str());
        if norm.as_str().is_empty() {
            return Err(FolkError::InvalidLabel(label.clone()));
        }
        Ok(norm)
    }

    /// The normalized label if no *other* tag owns it.
    fn free_label(&self, label: &String, owner: Option<TagId>) -> (r: Result<String, FolkError>)
        ensures
            match r {
                Ok(n) => label_check(
                    self@,
                    label@,
                    match owner {
                        Some(o) => Some(o.0),
                        None => None,
                    },
                ) == Ok::<Seq<char>, FolkErrorView>(n@),
                Err(e) => label_check(
                    self@,
                    label@,
                    match owner {
                        Some(o) => Some(o.0),
                        None => None,
                    },
                ) == Err::<Seq<char>, FolkErrorView>(e@),
            },
    {
        let norm = Self::valid_label(label)?;
        match self.resolve_normalized(&norm) {
            Some(t) => {
                let mine = match owner {
                    Some(o) => o.0 == t.0,
                    None => false,
                };
                if mine {
                    Ok(norm)
                } else {
                    Err(FolkError::DuplicateLabel(t))
                }
            },
            None => Ok(norm),
        }
    }
}

} // verus!
