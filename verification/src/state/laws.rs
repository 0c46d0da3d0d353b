//! What the vocabulary and binding edits do, stated over a state before and
//! after: which edge, alias or binding an accepted action takes away, and
//! when an untag is refused.

use vstd::prelude::*;

use super::apply::{
    alias_events, apply_spec, binding_events, bound_to, child_edge_events, child_of,
    merge_edge_events, moved_count, parent_edge_events, target_taken, within_limits,
};
use super::query::lemma_filter_twice;
use super::collections::lemma_tag_unique;
use super::fold::{
    alias_removed, fold_events, law_fold_split, lemma_map_tag, parent_removed, replay,
};
use super::graph::parent_edge;
use super::read::{first_where, lemma_first_where_none, owns, resolve_normalized};
use super::valid::{
    lemma_alias_events, lemma_alias_fold, lemma_binding_events, lemma_binding_fold,
    lemma_child_edge_events, lemma_edge_fold, lemma_parent_edge_events, owned_by, tagged,
    unique_over, untagged, valid,
};
use super::{
    binding_lt, key_lt, key_other_than, lemma_binding_unordered_same, probe, same_key, BindingView,
    FolkView,
};
use crate::action::ActionView;
use crate::error::FolkErrorView;
use crate::event::EventView;
use crate::label::normalized;
use crate::sorted::{
    after, before, lemma_filter_contains_iff, lemma_filter_sorted, other_than, sorted_by,
    sorted_put,
};
use crate::text::lemma_chars_order;

verus! {

/// One event folded is that event replayed.
proof fn lemma_fold_single(v: FolkView, e: EventView)
    ensures
        fold_events(v, seq![e]) == replay(v, e),
{
    let d = seq![e].drop_last();
    assert(d =~= Seq::<EventView>::empty());
    assert(fold_events(v, d) == v);
}

/// The position of an existing tag, the only one with its id.
proof fn lemma_index_of(v: FolkView, id: u64) -> (i: int)
    requires
        v.wf(),
        v.has_tag(id),
    ensures
        0 <= i < v.tags.len(),
        v.tags[i].id == id,
        v.tag(id) == v.tags[i],
        forall|k: int| 0 <= k < v.tags.len() && v.tags[k].id == id ==> k == i,
{
    let i = v.tag_index(id);
    assert forall|k: int| 0 <= k < v.tags.len() && v.tags[k].id == id implies k == i by {
        lemma_tag_unique(v.tags, i, k);
    }
    i
}

/// Removing a parent edge is accepted exactly when the actor may edit the
/// structure, both tags exist and the edge is there. Then it emits one
/// event, and afterwards the child lists every parent it listed before but
/// that one, and nothing else: the edge is gone.
pub proof fn law_remove_parent(v: FolkView, actor: Seq<char>, child: u64, parent: u64)
    requires
        v.wf(),
    ensures
        apply_spec(v, actor, ActionView::RemoveParent { child, parent }) is Ok <==> (
        v.may_edit_structure(actor) && v.has_tag(child) && v.has_tag(parent) && v.tag(
            child,
        ).parents.contains(parent)),
        apply_spec(v, actor, ActionView::RemoveParent { child, parent }) is Ok ==> ({
            let es = apply_spec(v, actor, ActionView::RemoveParent { child, parent })->Ok_0;
            let w = fold_events(v, es);
            &&& es.len() == 1
            &&& w.tags.len() == v.tags.len()
            &&& w.bindings == v.bindings
            &&& forall|k: int, p: u64|
                0 <= k < w.tags.len() && w.tags[k].id == child ==> (#[trigger] w.tags[k].parents.contains(p)
                    <==> (v.tag(child).parents.contains(p) && p != parent))
            &&& !parent_edge(w, child, parent)
        }),
{
    let a = ActionView::RemoveParent { child, parent };
    if apply_spec(v, actor, a) is Ok {
        let es = apply_spec(v, actor, a)->Ok_0;
        let i = lemma_index_of(v, child);
        let x = v.tags[i];
        let e = EventView::ParentRemoved { child, parent, by: actor };
        assert(es == seq![e]);
        lemma_fold_single(v, e);
        let w = replay(v, e);
        lemma_map_tag(v.tags, i, parent_removed(parent));
        assert(w.tags == v.tags.update(i, parent_removed(parent)(x)));
        assert forall|k: int, p: u64|
            0 <= k < w.tags.len() && w.tags[k].id == child implies (#[trigger] w.tags[k].parents.contains(
            p,
        ) <==> (v.tag(child).parents.contains(p) && p != parent)) by {
            if k != i {
                assert(v.tags[k].id == child);
            }
            lemma_filter_contains_iff(x.parents, other_than(parent), p);
        }
        if parent_edge(w, child, parent) {
            let k = choose|k: int|
                0 <= k < w.tags.len() && w.tags[k].id == child && w.tags[k].parents.contains(parent);
            assert(w.tags[k].parents.contains(parent));
        }
    }
}

/// Removing an alias is accepted exactly when the actor may edit the
/// structure, the tag exists and carries the normalized alias. Then it emits
/// one event; afterwards the tag keeps its label and every other alias, and
/// loses that one; in a valid state no tag owns the alias any more, so it no
/// longer resolves.
pub proof fn law_remove_alias(v: FolkView, actor: Seq<char>, tag: u64, alias: Seq<char>)
    requires
        v.wf(),
    ensures
        apply_spec(v, actor, ActionView::RemoveAlias { tag, alias }) is Ok <==> (
        v.may_edit_structure(actor) && v.has_tag(tag) && v.tag(tag).aliases.contains(
            normalized(alias),
        )),
        apply_spec(v, actor, ActionView::RemoveAlias { tag, alias }) is Ok ==> ({
            let es = apply_spec(v, actor, ActionView::RemoveAlias { tag, alias })->Ok_0;
            let w = fold_events(v, es);
            &&& es.len() == 1
            &&& w.tags.len() == v.tags.len()
            &&& w.bindings == v.bindings
            &&& forall|k: int, l: Seq<char>|
                0 <= k < w.tags.len() && w.tags[k].id == tag ==> w.tags[k].label == v.tag(tag).label
                    && (#[trigger] w.tags[k].aliases.contains(l) <==> (v.tag(tag).aliases.contains(l)
                    && l != normalized(alias)))
            &&& valid(v) ==> resolve_normalized(w, normalized(alias)) is None
        }),
{
    let a = ActionView::RemoveAlias { tag, alias };
    let norm = normalized(alias);
    if apply_spec(v, actor, a) is Ok {
        let es = apply_spec(v, actor, a)->Ok_0;
        let i = lemma_index_of(v, tag);
        let x = v.tags[i];
        let e = EventView::AliasRemoved { tag, alias: norm, by: actor };
        assert(es == seq![e]);
        lemma_fold_single(v, e);
        let w = replay(v, e);
        lemma_map_tag(v.tags, i, alias_removed(norm));
        assert(w.tags == v.tags.update(i, alias_removed(norm)(x)));
        assert forall|k: int, l: Seq<char>|
            0 <= k < w.tags.len() && w.tags[k].id == tag implies w.tags[k].label == v.tag(tag).label
            && (#[trigger] w.tags[k].aliases.contains(l) <==> (v.tag(tag).aliases.contains(l) && l
            != norm)) by {
            if k != i {
                assert(v.tags[k].id == tag);
            }
            lemma_filter_contains_iff(x.aliases, other_than(norm), l);
        }
        if valid(v) {
            assert forall|k: int| 0 <= k < w.tags.len() implies !#[trigger] owns(norm)(w.tags[k]) by {
                assert(unique_over(v.tags));
                assert(!x.aliases.contains(x.label));
                if k == i {
                    lemma_filter_contains_iff(x.aliases, other_than(norm), norm);
                } else {
                    assert(owned_by(v.tags[i], norm));
                    assert(w.tags[k] == v.tags[k]);
                    if k < i {
                        assert(owned_by(v.tags[k], norm) ==> !owned_by(v.tags[i], norm));
                    } else {
                        assert(!owned_by(v.tags[k], norm));
                    }
                }
            }
            lemma_first_where_none(w.tags, owns(norm));
        }
    }
}

/// Naming oneself as the tagger of an untag is the same as naming nobody.
/// An untag is refused as unauthorized exactly when the tag exists and the
/// named tagger is someone other than a non-curator actor. Accepted, it
/// emits one event and removes exactly the binding of that item, tag and
/// tagger, which existed, and keeps every other.
pub proof fn law_untag(
    v: FolkView,
    actor: Seq<char>,
    item: Seq<char>,
    tag: u64,
    tagger: Option<Seq<char>>,
)
    ensures
        apply_spec(v, actor, ActionView::Untag { item, tag, tagger: Some(actor) }) == apply_spec(
            v,
            actor,
            ActionView::Untag { item, tag, tagger: None },
        ),
        apply_spec(v, actor, ActionView::Untag { item, tag, tagger })
            == Err::<Seq<EventView>, FolkErrorView>(FolkErrorView::NotAuthorized) <==> (v.has_tag(
            tag,
        ) && (tagger matches Some(who) && who != actor) && !v.is_curator(actor)),
        apply_spec(v, actor, ActionView::Untag { item, tag, tagger }) is Ok ==> ({
            let who = match tagger {
                Some(t) => t,
                None => actor,
            };
            let es = apply_spec(v, actor, ActionView::Untag { item, tag, tagger })->Ok_0;
            let w = fold_events(v, es);
            &&& es.len() == 1
            &&& w.tags == v.tags
            &&& exists|j: int|
                0 <= j < v.bindings.len() && v.bindings[j].item == item && v.bindings[j].tag == tag
                    && v.bindings[j].tagger == who
            &&& forall|b: BindingView| #[trigger] w.bindings.contains(b) <==> (v.bindings.contains(b)
                && !(b.item == item && b.tag == tag && b.tagger == who))
        }),
{
    let a = ActionView::Untag { item, tag, tagger };
    if apply_spec(v, actor, a) is Ok {
        let who = match tagger {
            Some(t) => t,
            None => actor,
        };
        let es = apply_spec(v, actor, a)->Ok_0;
        let e = es[0];
        assert(es == seq![e]);
        lemma_fold_single(v, e);
        let w = replay(v, e);
        let k = probe(item, tag, who);
        let found = first_where(v.bindings, super::apply::same_key_as(k));
        let bv = found->Some_0;
        let j = choose|j: int| super::read::is_first(v.bindings, super::apply::same_key_as(k), j);
        assert(v.bindings[j] == bv);
        assert forall|b: BindingView| #[trigger] w.bindings.contains(b) <==> (v.bindings.contains(b)
            && !(b.item == item && b.tag == tag && b.tagger == who)) by {
            lemma_filter_contains_iff(v.bindings, key_other_than(k), b);
        }
    }
}


// ---------------------------------------------------------------------------
// Merging moves bindings.

/// The state holds a binding of the item by the tagger on the tag, whatever
/// its visibility.
pub open spec fn has_binding_of(v: FolkView, item: Seq<char>, tag: u64, tagger: Seq<char>) -> bool {
    exists|j: int|
        0 <= j < v.bindings.len() && v.bindings[j].item == item && v.bindings[j].tag == tag
            && v.bindings[j].tagger == tagger
}

/// A binding on `source` whose item and tagger have no binding on `into`:
/// one a merge moves.
pub open spec fn moving(v: FolkView, source: u64, into: u64) -> spec_fn(BindingView) -> bool {
    |b: BindingView| b.tag == source && !has_binding_of(v, b.item, into, b.tagger)
}

/// A binding with `b`'s item and tagger on `into`, and its visibility.
pub open spec fn moved_to(b: BindingView, into: u64) -> BindingView {
    BindingView { item: b.item, tag: into, tagger: b.tagger, visibility: b.visibility }
}

/// A binding of a put-into list is kept unless it has the new one's identity,
/// and the new one is there.
proof fn lemma_put_binding(s: Seq<BindingView>, x: BindingView, y: BindingView)
    ensures
        sorted_put(s, x, binding_lt()).contains(x),
        s.contains(y) && !same_key(y, x) ==> sorted_put(s, x, binding_lt()).contains(y),
{
    let lt = binding_lt();
    let fb = s.filter(before(lt, x));
    let fa = s.filter(after(lt, x));
    let r = sorted_put(s, x, lt);
    assert(r[fb.len() as int] == x);
    if s.contains(y) && !same_key(y, x) {
        if !key_lt(y, x) && !key_lt(x, y) {
            lemma_binding_unordered_same(y, x);
        }
        if key_lt(y, x) {
            lemma_filter_contains_iff(s, before(lt, x), y);
            let k = choose|k: int| 0 <= k < fb.len() && fb[k] == y;
            assert(r[k] == y);
        } else {
            lemma_filter_contains_iff(s, after(lt, x), y);
            let k = choose|k: int| 0 <= k < fa.len() && fa[k] == y;
            assert(r[fb.len() + 1 + k] == y);
        }
    }
}

/// A contained binding gives a witness for `has_binding_of`.
proof fn lemma_has_binding(v: FolkView, b: BindingView)
    requires
        v.bindings.contains(b),
    ensures
        has_binding_of(v, b.item, b.tag, b.tagger),
{
    let j = choose|j: int| 0 <= j < v.bindings.len() && v.bindings[j] == b;
    assert(v.bindings[j].item == b.item);
}

/// What the binding events of a merge do, folded onto a state holding the
/// pre-merge bindings: each moving binding arrives on `into` with its
/// visibility, every other binding of `source` finds one of its item and
/// tagger on `into`, and the bindings already on `into` stay.
proof fn lemma_binding_events_effect(
    ms: Seq<BindingView>,
    v: FolkView,
    u0: FolkView,
    source: u64,
    into: u64,
)
    requires
        u0.bindings == v.bindings,
        source != into,
        sorted_by(ms, binding_lt()),
        forall|i: int| 0 <= i < ms.len() ==> (#[trigger] ms[i]).tag == source,
    ensures
        ({
            let u = fold_events(u0, binding_events(ms, v, source, into));
            &&& forall|i: int|
                0 <= i < ms.len() && !has_binding_of(v, ms[i].item, into, ms[i].tagger)
                    ==> u.bindings.contains(moved_to(#[trigger] ms[i], into))
            &&& forall|i: int|
                0 <= i < ms.len() ==> has_binding_of(u, (#[trigger] ms[i]).item, into, ms[i].tagger)
            &&& forall|b: BindingView|
                v.bindings.contains(b) && b.tag == into ==> #[trigger] u.bindings.contains(b)
        }),
    decreases ms.len(),
{
    let u = fold_events(u0, binding_events(ms, v, source, into));
    if ms.len() == 0 {
        assert(binding_events(ms, v, source, into) =~= Seq::<EventView>::empty());
        assert(fold_events(u0, Seq::<EventView>::empty()) == u0);
    } else {
        let rest = ms.drop_last();
        let m = ms.last();
        assert forall|i: int| 0 <= i < rest.len() implies (#[trigger] rest[i]).tag == source by {
            assert(rest[i] == ms[i]);
        }
        lemma_binding_events_effect(rest, v, u0, source, into);
        let ur = fold_events(u0, binding_events(rest, v, source, into));
        let un = EventView::Untagged {
            item: m.item,
            tag: source,
            tagger: m.tagger,
            visibility: m.visibility,
        };
        let x = moved_to(m, into);
        let tg = EventView::Tagged {
            item: m.item,
            tag: into,
            tagger: m.tagger,
            visibility: m.visibility,
        };
        let taken = target_taken(v, m, into);
        assert(taken == has_binding_of(v, m.item, into, m.tagger)) by {
            if taken {
                let j = choose|j: int|
                    0 <= j < v.bindings.len() && same_key(v.bindings[j], probe(m.item, into, m.tagger));
                assert(v.bindings[j].item == m.item);
            }
            if has_binding_of(v, m.item, into, m.tagger) {
                let j = choose|j: int|
                    0 <= j < v.bindings.len() && v.bindings[j].item == m.item && v.bindings[j].tag
                        == into && v.bindings[j].tagger == m.tagger;
                assert(same_key(v.bindings[j], probe(m.item, into, m.tagger)));
            }
        }
        let tail = if taken {
            Seq::<EventView>::empty()
        } else {
            seq![tg]
        };
        assert(binding_events(ms, v, source, into) == binding_events(rest, v, source, into) + seq![
            un,
        ] + tail);
        law_fold_split(u0, binding_events(rest, v, source, into) + seq![un], tail);
        law_fold_split(u0, binding_events(rest, v, source, into), seq![un]);
        lemma_fold_single(ur, un);
        let u1 = replay(ur, un);
        assert(u1.bindings == ur.bindings.filter(key_other_than(probe(m.item, source, m.tagger))));
        // What the untag keeps: every binding not on `source`.
        assert forall|y: BindingView| #[trigger] ur.bindings.contains(y) && y.tag != source implies u1.bindings.contains(y) by {
            lemma_filter_contains_iff(ur.bindings, key_other_than(probe(m.item, source, m.tagger)), y);
        }
        if taken {
            assert(tail =~= Seq::<EventView>::empty());
            assert(fold_events(u1, tail) == u1);
        } else {
            assert(tail == seq![tg]);
            lemma_fold_single(u1, tg);
            assert(u.bindings == sorted_put(u1.bindings, x, binding_lt()));
        }
        // Earlier entries have other identities than the last one's move.
        assert forall|i: int| 0 <= i < rest.len() implies !(#[trigger] rest[i].item == m.item
            && rest[i].tagger == m.tagger) by {
            assert(binding_lt()(ms[i], ms[ms.len() - 1]));
            lemma_chars_order();
        }
        assert forall|i: int|
            0 <= i < ms.len() && !has_binding_of(v, ms[i].item, into, ms[i].tagger) implies u.bindings.contains(
            moved_to(#[trigger] ms[i], into),
        ) by {
            if i < rest.len() {
                assert(ms[i] == rest[i]);
                assert(ur.bindings.contains(moved_to(rest[i], into)));
                assert(u1.bindings.contains(moved_to(rest[i], into)));
                if !taken {
                    lemma_put_binding(u1.bindings, x, moved_to(rest[i], into));
                }
            } else {
                lemma_put_binding(u1.bindings, x, x);
            }
        }
        assert forall|b: BindingView| v.bindings.contains(b) && b.tag == into implies #[trigger] u.bindings.contains(b) by {
            assert(ur.bindings.contains(b));
            assert(u1.bindings.contains(b));
            if !taken {
                if same_key(b, x) {
                    lemma_has_binding(v, b);
                }
                lemma_put_binding(u1.bindings, x, b);
            }
        }
        assert forall|i: int| 0 <= i < ms.len() implies has_binding_of(u, (#[trigger] ms[i]).item, into, ms[i].tagger) by {
            if !taken {
                lemma_put_binding(u1.bindings, x, x);
                if i == ms.len() - 1 || same_key(moved_to(ms[i], into), x) {
                    lemma_has_binding(u, x);
                } else {
                    assert(ms[i] == rest[i]);
                    assert(has_binding_of(ur, rest[i].item, into, rest[i].tagger));
                    let j = choose|j: int|
                        0 <= j < ur.bindings.len() && ur.bindings[j].item == rest[i].item
                            && ur.bindings[j].tag == into && ur.bindings[j].tagger == rest[i].tagger;
                    let y = ur.bindings[j];
                    assert(ur.bindings.contains(y));
                    assert(u1.bindings.contains(y));
                    if same_key(y, x) {
                        lemma_has_binding(u, x);
                    } else {
                        lemma_put_binding(u1.bindings, x, y);
                        lemma_has_binding(u, y);
                    }
                }
            } else {
                if i == ms.len() - 1 {
                    let j = choose|j: int|
                        0 <= j < v.bindings.len() && v.bindings[j].item == m.item && v.bindings[j].tag
                            == into && v.bindings[j].tagger == m.tagger;
                    let y = v.bindings[j];
                    assert(v.bindings.contains(y));
                    assert(ur.bindings.contains(y));
                    assert(u1.bindings.contains(y));
                    lemma_has_binding(u, y);
                } else {
                    assert(ms[i] == rest[i]);
                    assert(has_binding_of(ur, rest[i].item, into, rest[i].tagger));
                    let j = choose|j: int|
                        0 <= j < ur.bindings.len() && ur.bindings[j].item == rest[i].item
                            && ur.bindings[j].tag == into && ur.bindings[j].tagger == rest[i].tagger;
                    let y = ur.bindings[j];
                    assert(ur.bindings.contains(y));
                    assert(u1.bindings.contains(y));
                    lemma_has_binding(u, y);
                }
            }
        }
    }
}


/// The merge's test for a binding already on `into` is `has_binding_of`.
proof fn lemma_taken_is(v: FolkView, m: BindingView, into: u64)
    ensures
        target_taken(v, m, into) == has_binding_of(v, m.item, into, m.tagger),
{
    if target_taken(v, m, into) {
        let j = choose|j: int|
            0 <= j < v.bindings.len() && same_key(v.bindings[j], probe(m.item, into, m.tagger));
        assert(v.bindings[j].item == m.item);
    }
    if has_binding_of(v, m.item, into, m.tagger) {
        let j = choose|j: int|
            0 <= j < v.bindings.len() && v.bindings[j].item == m.item && v.bindings[j].tag == into
                && v.bindings[j].tagger == m.tagger;
        assert(same_key(v.bindings[j], probe(m.item, into, m.tagger)));
    }
}

/// The count a merge reports is the number of bindings it moves.
proof fn lemma_moved_count_is(ms: Seq<BindingView>, v: FolkView, source: u64, into: u64)
    requires
        forall|i: int| 0 <= i < ms.len() ==> (#[trigger] ms[i]).tag == source,
    ensures
        moved_count(ms, v, into) == ms.filter(moving(v, source, into)).len(),
    decreases ms.len(),
{
    reveal(Seq::filter);
    if ms.len() > 0 {
        let rest = ms.drop_last();
        let m = ms.last();
        assert forall|i: int| 0 <= i < rest.len() implies (#[trigger] rest[i]).tag == source by {
            assert(rest[i] == ms[i]);
        }
        lemma_moved_count_is(rest, v, source, into);
        assert(ms =~= rest.push(m));
        rest.lemma_filter_len_push(moving(v, source, into), m);
        lemma_taken_is(v, m, into);
        assert(m.tag == source);
    }
}

/// Merging moves every binding of `source` onto `into`: each one whose item
/// and tagger have no binding on `into` yet arrives there with its
/// visibility; each other one finds that binding, which stays; no binding is
/// left on `source`; and the summary reports as moved exactly the bindings
/// whose item and tagger had no binding on `into`.
pub proof fn law_merge_moves_bindings(v: FolkView, actor: Seq<char>, source: u64, into: u64)
    requires
        v.wf(),
        within_limits(v, ActionView::MergeTags { source, into }),
        apply_spec(v, actor, ActionView::MergeTags { source, into }) is Ok,
    ensures
        ({
            let es = apply_spec(v, actor, ActionView::MergeTags { source, into })->Ok_0;
            let w = fold_events(v, es);
            &&& forall|b: BindingView|
                v.bindings.contains(b) && b.tag == source ==> #[trigger] has_binding_of(
                    w,
                    b.item,
                    into,
                    b.tagger,
                )
            &&& forall|b: BindingView|
                v.bindings.contains(b) && b.tag == source && !has_binding_of(v, b.item, into, b.tagger)
                    ==> w.bindings.contains(#[trigger] moved_to(b, into))
            &&& forall|b: BindingView| v.bindings.contains(b) && b.tag == into ==> #[trigger] w.bindings.contains(b)
            &&& forall|b: BindingView| #[trigger] w.bindings.contains(b) ==> b.tag != source
            &&& es.len() > 0
            &&& es.last() matches EventView::TagsMerged { moved_bindings, .. } && moved_bindings
                == v.bindings.filter(moving(v, source, into)).len()
        }),
{
    let es = apply_spec(v, actor, ActionView::MergeTags { source, into })->Ok_0;
    let src = v.tag(source);
    let tgt = v.tag(into);
    let cs = v.tags.filter(child_of(source));
    let ce = child_edge_events(cs, source, into, actor);
    let held = tgt.parents.filter(other_than(source));
    let pe = parent_edge_events(src.parents, into, held, actor);
    let e = ce + pe;
    assert(e == merge_edge_events(v, actor, source, into));
    let ls = seq![src.label] + src.aliases;
    let a = alias_events(ls, tgt, actor);
    let ms = v.bindings.filter(bound_to(source));
    let b = binding_events(ms, v, source, into);
    let m = EventView::TagsMerged {
        source,
        into,
        moved_bindings: moved_count(ms, v, into) as u32,
        by: actor,
    };
    assert(es == e + a + b + seq![m]);
    law_fold_split(v, e + a + b, seq![m]);
    law_fold_split(v, e + a, b);
    law_fold_split(v, e, a);
    let v1 = fold_events(v, e);
    let v2 = fold_events(v1, a);
    let v3 = fold_events(v2, b);
    lemma_fold_single(v3, m);
    let w = replay(v3, m);
    assert(fold_events(v, es) == w);
    assert(w.bindings == v3.bindings);
    lemma_child_edge_events(cs, source, into, actor);
    lemma_parent_edge_events(src.parents, into, held, actor);
    assert forall|k: int| 0 <= k < e.len() implies (#[trigger] e[k] is ParentAdded || e[k] is ParentRemoved) by {
        if k < ce.len() {
            assert(e[k] == ce[k]);
        } else {
            assert(e[k] == pe[k - ce.len()]);
        }
    }
    lemma_edge_fold(v, e);
    lemma_alias_events(ls, tgt, actor);
    lemma_alias_fold(v1, a);
    assert(v2.bindings == v.bindings);
    lemma_filter_sorted(v.bindings, bound_to(source), binding_lt());
    assert forall|i: int| 0 <= i < ms.len() implies (#[trigger] ms[i]).tag == source by {
        assert(ms.contains(ms[i]));
        lemma_filter_contains_iff(v.bindings, bound_to(source), ms[i]);
    }
    lemma_binding_events_effect(ms, v, v2, source, into);
    assert forall|x: BindingView| v.bindings.contains(x) && x.tag == source implies #[trigger] has_binding_of(
        w,
        x.item,
        into,
        x.tagger,
    ) && (!has_binding_of(v, x.item, into, x.tagger) ==> w.bindings.contains(moved_to(x, into))) by {
        lemma_filter_contains_iff(v.bindings, bound_to(source), x);
        let i = choose|i: int| 0 <= i < ms.len() && ms[i] == x;
        assert(has_binding_of(v3, ms[i].item, into, ms[i].tagger));
    }
    assert forall|x: BindingView|
        v.bindings.contains(x) && x.tag == source && !has_binding_of(v, x.item, into, x.tagger)
            implies w.bindings.contains(#[trigger] moved_to(x, into)) by {
        lemma_filter_contains_iff(v.bindings, bound_to(source), x);
        let i = choose|i: int| 0 <= i < ms.len() && ms[i] == x;
        assert(v3.bindings.contains(moved_to(ms[i], into)));
    }
    lemma_binding_events(ms, v, source, into);
    lemma_binding_fold(v2, b);
    assert forall|x: BindingView| #[trigger] w.bindings.contains(x) implies x.tag != source by {
        if x.tag == source && !tagged(b, x) {
            lemma_filter_contains_iff(v.bindings, bound_to(source), x);
            let i = choose|i: int| 0 <= i < ms.len() && ms[i] == x;
            assert(untagged(b, ms[i]));
        }
    }
    lemma_moved_count_is(ms, v, source, into);
    lemma_filter_twice(v.bindings, bound_to(source), moving(v, source, into));
    assert(ms.filter(moving(v, source, into)) == v.bindings.filter(moving(v, source, into)));
    assert(moved_count(ms, v, into) <= u32::MAX);
    assert(es.last() == m);
    assert(es.len() > 0);
    assert forall|x: BindingView| v.bindings.contains(x) && x.tag == into implies #[trigger] w.bindings.contains(x) by {
        assert(v3.bindings.contains(x));
    }
}

} // verus!
