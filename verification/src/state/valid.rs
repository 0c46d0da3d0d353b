//! The kernel's invariants, and the law that every transition keeps them.

use vstd::prelude::*;

use super::apply::{
    add_alias_spec, add_parent_spec, alias_events, apply_spec, within_limits, binding_events, bound_to, child_edge_events,
    child_of, define_spec, label_check, merge_edge_events, merge_spec, missing_in, moved_count,
    parent_edge_events, remove_alias_spec, remove_parent_spec, rename_spec, retire_spec, tag_spec,
    target_taken, untag_spec, without_tag,
};
use super::collections::lemma_tag_unique;
use super::fold::{
    alias_added, alias_removed, fold_events, id_set, law_fold_split, lemma_map_tag, parent_added,
    parent_removed, renamed, replay,
};
use super::graph::{cyclic_in, has_cycle, is_walk, on_cycle, parent_edge, reaches, step};
use super::read::{first_where, has_bindings, has_children, is_first, lemma_first_where_some, owns};
use crate::label::normalized;
use crate::action::ActionView;
use crate::event::EventView;
use super::load::{
    cycle_defects, counter_defects, dangling_binding, dangling_of, dangling_parents, defects,
    duplicate_labels, equal_to, label_defects, binding_defects, label_pool, missing_tag, repeated,
};
use super::{
    binding_lt, id_lt, key_other_than, lemma_text_lt_order, probe, tag_lt, tag_other_than, text_lt,
    BindingView, FolkView, TagView, Visibility,
};
use crate::sorted::{
    after, before, lemma_filter_all, lemma_filter_contains_iff, lemma_filter_none, lemma_filter_sub,
    lemma_irreflexive, other_than, set_of, sorted_by, sorted_put,
};

verus! {

/// The tag owns the label, as its preferred label or as an alias.
pub open spec fn owned_by(t: TagView, l: Seq<char>) -> bool {
    t.label == l || t.aliases.contains(l)
}

/// Every parent of every tag exists.
pub open spec fn parents_exist(v: FolkView) -> bool {
    forall|i: int, p: u64|
        0 <= i < v.tags.len() && #[trigger] v.tags[i].parents.contains(p) ==> v.has_tag(p)
}

/// No label is owned twice among the tags: by two tags, or by one tag as
/// label and alias.
pub open spec fn unique_over(tags: Seq<TagView>) -> bool {
    &&& forall|i: int, j: int, l: Seq<char>|
        0 <= i < j < tags.len() && #[trigger] owned_by(tags[i], l) ==> !#[trigger] owned_by(
            tags[j],
            l,
        )
    &&& forall|i: int| 0 <= i < tags.len() ==> !(#[trigger] tags[i]).aliases.contains(tags[i].label)
}

/// No label is owned twice.
pub open spec fn labels_unique(v: FolkView) -> bool {
    unique_over(v.tags)
}

/// Every binding's tag exists.
pub open spec fn bindings_bound(v: FolkView) -> bool {
    forall|j: int| 0 <= j < v.bindings.len() ==> v.has_tag(#[trigger] v.bindings[j].tag)
}

/// Every id is below the id counter.
pub open spec fn counter_ahead(v: FolkView) -> bool {
    forall|i: int| 0 <= i < v.tags.len() ==> (#[trigger] v.tags[i]).id < v.next_tag_id
}

/// The kernel's invariants: no dangling parent, no cycle, no label owned
/// twice, no dangling binding, no id at or above the counter.
pub open spec fn valid(v: FolkView) -> bool {
    &&& parents_exist(v)
    &&& !has_cycle(v)
    &&& labels_unique(v)
    &&& bindings_bound(v)
    &&& counter_ahead(v)
}

// ---------------------------------------------------------------------------
// A state is valid exactly when `validate` reports nothing.

/// No dangling-parent defect exactly when every parent of the listed tags
/// exists.
proof fn lemma_dangling_parents_empty(v: FolkView, tags: Seq<TagView>)
    ensures
        dangling_parents(v, tags).len() == 0 <==> forall|i: int, p: u64|
            0 <= i < tags.len() && #[trigger] tags[i].parents.contains(p) ==> v.has_tag(p),
    decreases tags.len(),
{
    if tags.len() > 0 {
        let rest = tags.drop_last();
        let t = tags.last();
        lemma_dangling_parents_empty(v, rest);
        let f = t.parents.filter(missing_tag(v));
        assert(dangling_of(t.id, f).len() == f.len());
        if f.len() == 0 {
            assert forall|p: u64| #[trigger] t.parents.contains(p) implies v.has_tag(p) by {
                lemma_filter_contains_iff(t.parents, missing_tag(v), p);
                if !v.has_tag(p) {
                    assert(f.contains(p));
                }
            }
        } else {
            assert(f.contains(f[0]));
            lemma_filter_contains_iff(t.parents, missing_tag(v), f[0]);
            assert(tags[tags.len() - 1].parents.contains(f[0]));
        }
        if forall|i: int, p: u64|
            0 <= i < tags.len() && #[trigger] tags[i].parents.contains(p) ==> v.has_tag(p) {
            assert forall|i: int, p: u64|
                0 <= i < rest.len() && #[trigger] rest[i].parents.contains(p) implies v.has_tag(p) by {
                assert(tags[i] == rest[i]);
                assert(tags[i].parents.contains(p));
            }
        }
        if forall|i: int, p: u64|
            0 <= i < rest.len() && #[trigger] rest[i].parents.contains(p) ==> v.has_tag(p) {
            if f.len() == 0 {
                assert forall|i: int, p: u64|
                    0 <= i < tags.len() && #[trigger] tags[i].parents.contains(p) implies v.has_tag(
                    p,
                ) by {
                    if i < rest.len() {
                        assert(tags[i] == rest[i]);
                        assert(rest[i].parents.contains(p));
                    } else {
                        assert(tags[i] == t);
                        assert(t.parents.contains(p));
                    }
                }
            }
        }
    }
}

/// No cycle defect exactly when no tag lies on a cycle.
proof fn lemma_cycle_defects_empty(v: FolkView)
    ensures
        cycle_defects(v).len() == 0 <==> !has_cycle(v),
{
    let c = v.tag_ids().filter(cyclic_in(v));
    if has_cycle(v) {
        let i = choose|i: int| 0 <= i < v.tags.len() && on_cycle(v, #[trigger] v.tags[i].id);
        assert(v.tag_ids()[i] == v.tags[i].id);
        lemma_filter_contains_iff(v.tag_ids(), cyclic_in(v), v.tags[i].id);
        assert(c.contains(v.tags[i].id));
    }
    if c.len() > 0 {
        assert(c.contains(c[0]));
        lemma_filter_contains_iff(v.tag_ids(), cyclic_in(v), c[0]);
        let i = choose|i: int| 0 <= i < v.tag_ids().len() && v.tag_ids()[i] == c[0];
        assert(on_cycle(v, v.tags[i].id));
    }
}

/// No dangling-binding defect exactly when every binding's tag exists.
proof fn lemma_binding_defects_empty(v: FolkView)
    ensures
        binding_defects(v.bindings.filter(dangling_binding(v))).len() == 0 <==> bindings_bound(v),
{
    let f = v.bindings.filter(dangling_binding(v));
    if f.len() > 0 {
        assert(f.contains(f[0]));
        lemma_filter_contains_iff(v.bindings, dangling_binding(v), f[0]);
        let j = choose|j: int| 0 <= j < v.bindings.len() && v.bindings[j] == f[0];
        assert(!v.has_tag(v.bindings[j].tag));
    }
    if !bindings_bound(v) {
        let j = choose|j: int| 0 <= j < v.bindings.len() && !v.has_tag(#[trigger] v.bindings[j].tag);
        lemma_filter_contains_iff(v.bindings, dangling_binding(v), v.bindings[j]);
        assert(f.contains(v.bindings[j]));
    }
}

/// With tags sorted by id, no counter defect exactly when every id is below
/// the counter.
proof fn lemma_counter_defects_empty(v: FolkView)
    requires
        sorted_by(v.tags, tag_lt()),
    ensures
        counter_defects(v).len() == 0 <==> counter_ahead(v),
{
    if v.tags.len() > 0 && v.tags.last().id < v.next_tag_id {
        assert forall|i: int| 0 <= i < v.tags.len() implies (#[trigger] v.tags[i]).id < v.next_tag_id by {
            if i < v.tags.len() - 1 {
                assert(tag_lt()(v.tags[i], v.tags[v.tags.len() - 1]));
            }
        }
    }
}


/// How many times the label occurs.
pub open spec fn count(s: Seq<Seq<char>>, l: Seq<char>) -> nat {
    s.filter(equal_to(l)).len()
}

/// Counting distributes over concatenation.
proof fn lemma_count_add(a: Seq<Seq<char>>, b: Seq<Seq<char>>, l: Seq<char>)
    ensures
        count(a + b, l) == count(a, l) + count(b, l),
{
    Seq::filter_distributes_over_add(a, b, equal_to(l));
}

/// A label occurs at least once exactly when it is there.
proof fn lemma_count_contains(s: Seq<Seq<char>>, l: Seq<char>)
    ensures
        count(s, l) >= 1 <==> s.contains(l),
{
    lemma_filter_contains_iff(s, equal_to(l), l);
    let f = s.filter(equal_to(l));
    if f.len() >= 1 {
        assert(f.contains(f[0]));
        lemma_filter_contains_iff(s, equal_to(l), f[0]);
    }
}

/// In a sequence without duplicates a label occurs at most once.
proof fn lemma_count_at_most_one(s: Seq<Seq<char>>, l: Seq<char>)
    requires
        s.no_duplicates(),
    ensures
        count(s, l) <= 1,
    decreases s.len(),
{
    if s.len() > 0 {
        let r = s.drop_last();
        assert(r.no_duplicates());
        lemma_count_at_most_one(r, l);
        assert(s =~= r.push(s.last()));
        r.lemma_filter_len_push(equal_to(l), s.last());
        if s.last() == l && count(r, l) >= 1 {
            lemma_count_contains(r, l);
            let k = choose|k: int| 0 <= k < r.len() && r[k] == l;
            assert(s[k] == s[s.len() - 1]);
        }
    }
}

/// A sequence sorted by character order has no duplicates.
proof fn lemma_sorted_labels_distinct(s: Seq<Seq<char>>)
    requires
        sorted_by(s, text_lt()),
    ensures
        s.no_duplicates(),
{
    lemma_text_lt_order();
    assert forall|i: int, j: int| 0 <= i < s.len() && 0 <= j < s.len() && i != j implies s[i]
        != s[j] by {
        if i < j {
            assert(text_lt()(s[i], s[j]));
            lemma_irreflexive(text_lt(), s[i]);
        } else {
            assert(text_lt()(s[j], s[i]));
            lemma_irreflexive(text_lt(), s[j]);
        }
    }
}

/// A one-label sequence holds the label once or not at all.
proof fn lemma_count_single(x: Seq<char>, l: Seq<char>)
    ensures
        count(seq![x], l) == (if x == l {
            1int
        } else {
            0int
        }),
{
    let e = Seq::<Seq<char>>::empty();
    assert(e.filter(equal_to(l)) =~= e) by {
        reveal(Seq::filter);
    }
    assert(seq![x] =~= e.push(x));
    e.lemma_filter_len_push(equal_to(l), x);
}

/// The labels of one tag: the preferred label, then the aliases.
pub open spec fn seg(t: TagView) -> Seq<Seq<char>> {
    seq![t.label] + t.aliases
}

/// The pool holds exactly the labels some tag owns.
proof fn lemma_pool_contains(tags: Seq<TagView>, l: Seq<char>)
    ensures
        label_pool(tags).contains(l) <==> exists|i: int| 0 <= i < tags.len() && #[trigger] owned_by(tags[i], l),
    decreases tags.len(),
{
    if tags.len() > 0 {
        let rest = tags.drop_last();
        let t = tags.last();
        lemma_pool_contains(rest, l);
        let a = label_pool(rest);
        assert(label_pool(tags) =~= a + seg(t));
        lemma_count_add(a, seg(t), l);
        lemma_count_add(seq![t.label], t.aliases, l);
        lemma_count_contains(label_pool(tags), l);
        lemma_count_contains(a, l);
        lemma_count_contains(seg(t), l);
        lemma_count_contains(seq![t.label], l);
        lemma_count_contains(t.aliases, l);
        if seq![t.label].contains(l) {
            assert(t.label == l);
        }
        if t.label == l {
            assert(seq![t.label][0] == l);
        }
        if exists|i: int| 0 <= i < tags.len() && #[trigger] owned_by(tags[i], l) {
            let i = choose|i: int| 0 <= i < tags.len() && #[trigger] owned_by(tags[i], l);
            if i < rest.len() {
                assert(owned_by(rest[i], l));
            }
        }
        if exists|i: int| 0 <= i < rest.len() && #[trigger] owned_by(rest[i], l) {
            let i = choose|i: int| 0 <= i < rest.len() && #[trigger] owned_by(rest[i], l);
            assert(owned_by(tags[i], l));
        }
        if owned_by(t, l) {
            assert(owned_by(tags[tags.len() - 1], l));
        }
    }
}

/// With each tag's aliases sorted, no label occurs twice in the pool exactly
/// when no label is owned twice.
proof fn lemma_pool_unique(tags: Seq<TagView>)
    requires
        forall|i: int| 0 <= i < tags.len() ==> sorted_by(#[trigger] tags[i].aliases, text_lt()),
    ensures
        (forall|l: Seq<char>| #[trigger] count(label_pool(tags), l) <= 1) <==> unique_over(tags),
    decreases tags.len(),
{
    if tags.len() == 0 {
        assert forall|l: Seq<char>| #[trigger] count(label_pool(tags), l) <= 1 by {
            assert(label_pool(tags).filter(equal_to(l)) =~= Seq::<Seq<char>>::empty()) by {
                reveal(Seq::filter);
            }
        }
    } else {
        let rest = tags.drop_last();
        let t = tags.last();
        let n = tags.len() - 1;
        assert(t == tags[n]);
        lemma_pool_unique(rest);
        let a = label_pool(rest);
        assert(label_pool(tags) =~= a + seg(t));
        lemma_sorted_labels_distinct(t.aliases);
        assert forall|l: Seq<char>| #[trigger] count(label_pool(tags), l) == count(a, l) + (if t.label
            == l {
            1int
        } else {
            0int
        }) + (if t.aliases.contains(l) {
            1int
        } else {
            0int
        }) by {
            lemma_count_add(a, seg(t), l);
            lemma_count_add(seq![t.label], t.aliases, l);
            lemma_count_at_most_one(t.aliases, l);
            lemma_count_contains(t.aliases, l);
            lemma_count_single(t.label, l);
        }
        if forall|l: Seq<char>| #[trigger] count(label_pool(tags), l) <= 1 {
            assert forall|l: Seq<char>| #[trigger] count(a, l) <= 1 by {
                assert(count(label_pool(tags), l) <= 1);
            }
            assert(unique_over(rest));
            assert(!t.aliases.contains(t.label)) by {
                assert(count(label_pool(tags), t.label) <= 1);
            }
            assert forall|i: int| 0 <= i < tags.len() implies !(#[trigger] tags[i]).aliases.contains(
                tags[i].label,
            ) by {
                if i < n {
                    assert(rest[i] == tags[i]);
                }
            }
            assert forall|i: int, j: int, l: Seq<char>|
                0 <= i < j < tags.len() && #[trigger] owned_by(tags[i], l) implies !#[trigger] owned_by(
                tags[j],
                l,
            ) by {
                if j < n {
                    assert(rest[i] == tags[i] && rest[j] == tags[j]);
                } else if owned_by(tags[j], l) {
                    assert(owned_by(rest[i], l));
                    lemma_pool_contains(rest, l);
                    lemma_count_contains(a, l);
                    assert(count(label_pool(tags), l) <= 1);
                }
            }
        }
        if unique_over(tags) {
            assert forall|i: int, j: int, l: Seq<char>|
                0 <= i < j < rest.len() && #[trigger] owned_by(rest[i], l) implies !#[trigger] owned_by(
                rest[j],
                l,
            ) by {
                assert(rest[i] == tags[i] && rest[j] == tags[j]);
            }
            assert forall|i: int| 0 <= i < rest.len() implies !(#[trigger] rest[i]).aliases.contains(
                rest[i].label,
            ) by {
                assert(rest[i] == tags[i]);
            }
            assert forall|l: Seq<char>| #[trigger] count(label_pool(tags), l) <= 1 by {
                assert(count(a, l) <= 1);
                if owned_by(t, l) {
                    lemma_pool_contains(rest, l);
                    if a.contains(l) {
                        let i = choose|i: int| 0 <= i < rest.len() && #[trigger] owned_by(rest[i], l);
                        assert(owned_by(tags[i], l));
                    }
                    lemma_count_contains(a, l);
                    assert(!tags[n].aliases.contains(tags[n].label));
                }
            }
        }
    }
}

/// A set built from a non-empty sequence is non-empty.
proof fn lemma_set_of_empty<A>(s: Seq<A>, lt: spec_fn(A, A) -> bool)
    ensures
        set_of(s, lt).len() == 0 <==> s.len() == 0,
{
    if s.len() > 0 {
        let r = set_of(s.drop_last(), lt);
        assert(sorted_put(r, s.last(), lt).len() >= 1);
    }
}

/// With each tag's aliases sorted, no duplicate-label defect exactly when no
/// label is owned twice.
proof fn lemma_label_defects_empty(v: FolkView)
    requires
        forall|i: int| 0 <= i < v.tags.len() ==> sorted_by(#[trigger] v.tags[i].aliases, text_lt()),
    ensures
        label_defects(duplicate_labels(v)).len() == 0 <==> labels_unique(v),
{
    let pool = label_pool(v.tags);
    let f = pool.filter(repeated(pool));
    lemma_set_of_empty(f, text_lt());
    lemma_pool_unique(v.tags);
    if f.len() > 0 {
        assert(f.contains(f[0]));
        lemma_filter_contains_iff(pool, repeated(pool), f[0]);
        assert(count(pool, f[0]) > 1);
    } else {
        assert forall|l: Seq<char>| #[trigger] count(pool, l) <= 1 by {
            lemma_filter_contains_iff(pool, repeated(pool), l);
            lemma_count_contains(pool, l);
        }
    }
}

/// A state with its shape is valid exactly when it has no defect.
pub proof fn lemma_valid_iff_no_defects(v: FolkView)
    requires
        v.wf(),
    ensures
        defects(v).len() == 0 <==> valid(v),
{
    lemma_dangling_parents_empty(v, v.tags);
    lemma_cycle_defects_empty(v);
    assert forall|i: int| 0 <= i < v.tags.len() implies sorted_by(#[trigger] v.tags[i].aliases, text_lt()) by {
        assert(v.tags[i].wf());
    }
    lemma_label_defects_empty(v);
    lemma_binding_defects_empty(v);
    lemma_counter_defects_empty(v);
}


// ---------------------------------------------------------------------------
// Tools for the law.

/// An element of a put-into sequence was there before or is the new one.
proof fn lemma_sorted_put_sub<A>(s: Seq<A>, x: A, lt: spec_fn(A, A) -> bool, y: A)
    requires
        sorted_put(s, x, lt).contains(y),
    ensures
        s.contains(y) || y == x,
{
    let fb = s.filter(before(lt, x));
    let fa = s.filter(after(lt, x));
    let r = sorted_put(s, x, lt);
    let k = choose|k: int| 0 <= k < r.len() && r[k] == y;
    if k < fb.len() {
        assert(fb.contains(y));
        lemma_filter_sub(s, before(lt, x), y);
    } else if k > fb.len() {
        assert(fa[k - fb.len() - 1] == y);
        assert(fa.contains(y));
        lemma_filter_sub(s, after(lt, x), y);
    }
}

/// An element of a set built from a sequence is in the sequence.
proof fn lemma_set_of_sub<A>(s: Seq<A>, lt: spec_fn(A, A) -> bool, y: A)
    requires
        set_of(s, lt).contains(y),
    ensures
        s.contains(y),
    decreases s.len(),
{
    if s.len() > 0 {
        let r = s.drop_last();
        lemma_sorted_put_sub(set_of(r, lt), s.last(), lt, y);
        if set_of(r, lt).contains(y) {
            lemma_set_of_sub(r, lt, y);
            let k = choose|k: int| 0 <= k < r.len() && r[k] == y;
            assert(s[k] == y);
        } else {
            assert(s[s.len() - 1] == y);
        }
    }
}

/// When no element qualifies, there is no first one.
proof fn lemma_none_qualifies<A>(s: Seq<A>, p: spec_fn(A) -> bool, y: A)
    requires
        first_where(s, p) is None,
        s.contains(y),
    ensures
        !p(y),
{
    if p(y) {
        let k = choose|k: int| 0 <= k < s.len() && s[k] == y;
        lemma_first_where_some(s, p, k);
    }
}

/// One event folded is that event replayed.
proof fn lemma_fold_one(v: FolkView, e: EventView)
    ensures
        fold_events(v, seq![e]) == replay(v, e),
{
    let d = seq![e].drop_last();
    assert(d =~= Seq::<EventView>::empty());
    assert(fold_events(v, d) == v);
    assert(seq![e].last() == e);
}

/// Same tag ids and parents, position by position.
pub open spec fn same_shape(v: FolkView, w: FolkView) -> bool {
    &&& v.tags.len() == w.tags.len()
    &&& forall|i: int|
        0 <= i < v.tags.len() ==> (#[trigger] v.tags[i]).id == w.tags[i].id && v.tags[i].parents
            == w.tags[i].parents
}

/// States of the same shape have the same edges, tags and cycles.
proof fn lemma_same_shape(v: FolkView, w: FolkView)
    requires
        same_shape(v, w),
    ensures
        forall|a: u64, b: u64| #[trigger] parent_edge(v, a, b) == parent_edge(w, a, b),
        forall|t: u64| #[trigger] v.has_tag(t) == w.has_tag(t),
        has_cycle(v) == has_cycle(w),
        parents_exist(v) == parents_exist(w),
        counter_ahead(v) == (counter_ahead(w) && v.next_tag_id == w.next_tag_id) || v.next_tag_id
            != w.next_tag_id,
{
    assert forall|a: u64, b: u64| #[trigger] parent_edge(v, a, b) == parent_edge(w, a, b) by {
        if parent_edge(v, a, b) {
            let i = choose|i: int|
                0 <= i < v.tags.len() && v.tags[i].id == a && v.tags[i].parents.contains(b);
            assert(w.tags[i].id == a && w.tags[i].parents.contains(b));
        }
        if parent_edge(w, a, b) {
            let i = choose|i: int|
                0 <= i < w.tags.len() && w.tags[i].id == a && w.tags[i].parents.contains(b);
            assert(v.tags[i].id == a && v.tags[i].parents.contains(b));
        }
    }
    assert forall|t: u64| #[trigger] v.has_tag(t) == w.has_tag(t) by {
        if v.has_tag(t) {
            let i = choose|i: int| 0 <= i < v.tags.len() && v.tags[i].id == t;
            assert(w.tags[i].id == t);
        }
        if w.has_tag(t) {
            let i = choose|i: int| 0 <= i < w.tags.len() && w.tags[i].id == t;
            assert(v.tags[i].id == t);
        }
    }
    if !has_cycle(v) {
        lemma_fewer_edges(v, w);
    }
    if !has_cycle(w) {
        lemma_fewer_edges(w, v);
    }
    if parents_exist(v) {
        assert forall|i: int, p: u64|
            0 <= i < w.tags.len() && #[trigger] w.tags[i].parents.contains(p) implies w.has_tag(p) by {
            assert(v.tags[i].parents.contains(p));
        }
    }
    if parents_exist(w) {
        assert forall|i: int, p: u64|
            0 <= i < v.tags.len() && #[trigger] v.tags[i].parents.contains(p) implies v.has_tag(p) by {
            assert(w.tags[i].parents.contains(p));
        }
    }
    if v.next_tag_id == w.next_tag_id && counter_ahead(v) {
        assert forall|i: int| 0 <= i < w.tags.len() implies (#[trigger] w.tags[i]).id < w.next_tag_id by {
            assert(v.tags[i].id < v.next_tag_id);
        }
    }
    if v.next_tag_id == w.next_tag_id && counter_ahead(w) {
        assert forall|i: int| 0 <= i < v.tags.len() implies (#[trigger] v.tags[i]).id < v.next_tag_id by {
            assert(w.tags[i].id < w.next_tag_id);
        }
    }
}

/// A state whose edges and tags are among another's has no cycle when the
/// other has none.
proof fn lemma_fewer_edges(v: FolkView, w: FolkView)
    requires
        forall|a: u64, b: u64| #[trigger] parent_edge(w, a, b) ==> parent_edge(v, a, b),
        forall|t: u64| #[trigger] w.has_tag(t) ==> v.has_tag(t),
        !has_cycle(v),
    ensures
        !has_cycle(w),
{
    if has_cycle(w) {
        let i = choose|i: int| 0 <= i < w.tags.len() && on_cycle(w, #[trigger] w.tags[i].id);
        let t = w.tags[i].id;
        let p = choose|p: Seq<u64>| #[trigger] is_walk(w, true, p) && p[0] == t && p.last() == t;
        assert forall|k: int| 0 <= k < p.len() - 1 implies #[trigger] step(v, true, p[k], p[k + 1]) by {
            assert(step(w, true, p[k], p[k + 1]));
        }
        assert(is_walk(v, true, p));
        assert(w.has_tag(t));
        let j = choose|j: int| 0 <= j < v.tags.len() && v.tags[j].id == t;
        assert(on_cycle(v, v.tags[j].id));
    }
}


// ---------------------------------------------------------------------------
// Each accepted action keeps a valid state valid.

/// A tag with a fresh id above every other goes last.
proof fn lemma_put_last(tags: Seq<TagView>, x: TagView)
    requires
        forall|i: int| 0 <= i < tags.len() ==> (#[trigger] tags[i]).id < x.id,
    ensures
        sorted_put(tags, x, tag_lt()) == tags.push(x),
{
    lemma_filter_all(tags, before(tag_lt(), x));
    assert forall|i: int| 0 <= i < tags.len() implies !#[trigger] after(tag_lt(), x)(tags[i]) by {}
    lemma_filter_none(tags, after(tag_lt(), x));
    assert(tags + seq![x] + Seq::<TagView>::empty() =~= tags.push(x));
}

/// Defining a tag keeps a valid state valid.
proof fn lemma_define_valid(v: FolkView, actor: Seq<char>, label: Seq<char>, parents: Seq<u64>)
    requires
        v.wf(),
        valid(v),
        v.next_tag_id < u64::MAX,
        define_spec(v, actor, label, parents) is Ok,
    ensures
        valid(fold_events(v, define_spec(v, actor, label, parents)->Ok_0)),
{
    let norm = normalized(label);
    let ps = id_set(parents);
    let next = v.next_tag_id;
    let e = EventView::TagDefined { tag: next, label: norm, parents: ps, by: actor };
    assert(define_spec(v, actor, label, parents)->Ok_0 == seq![e]);
    lemma_fold_one(v, e);
    let x = TagView { id: next, label: norm, aliases: Seq::empty(), parents: id_set(ps) };
    lemma_put_last(v.tags, x);
    let w = replay(v, e);
    assert(w.tags == v.tags.push(x));
    assert(w.next_tag_id == next + 1);
    let n = v.tags.len() as int;
    assert(w.tags[n] == x);
    assert forall|i: int| 0 <= i < n implies #[trigger] w.tags[i] == v.tags[i] by {}
    // Tags of the new state: the old ones and the new one.
    assert forall|t: u64| #[trigger] w.has_tag(t) <==> (v.has_tag(t) || t == next) by {
        if v.has_tag(t) {
            let i = choose|i: int| 0 <= i < v.tags.len() && v.tags[i].id == t;
            assert(w.tags[i].id == t);
        }
        if w.has_tag(t) && t != next {
            let i = choose|i: int| 0 <= i < w.tags.len() && w.tags[i].id == t;
            assert(v.tags[i].id == t);
        }
    }
    // The new tag's parents exist.
    assert forall|p: u64| #[trigger] x.parents.contains(p) implies v.has_tag(p) by {
        lemma_set_of_sub(ps, id_lt(), p);
        lemma_none_qualifies(ps, missing_in(v), p);
    }
    assert(!v.has_tag(next));
    // parents exist
    assert forall|i: int, p: u64|
        0 <= i < w.tags.len() && #[trigger] w.tags[i].parents.contains(p) implies w.has_tag(p) by {
        if i < n {
            assert(v.tags[i].parents.contains(p));
        }
    }
    // no cycle: no edge enters the new tag, and the old edges are unchanged
    assert forall|a: u64, b: u64| #[trigger] parent_edge(w, a, b) implies b != next && (a != next
        ==> parent_edge(v, a, b)) by {
        let i = choose|i: int|
            0 <= i < w.tags.len() && w.tags[i].id == a && w.tags[i].parents.contains(b);
        if i < n {
            assert(v.tags[i].parents.contains(b));
        } else {
            assert(v.has_tag(b));
        }
    }
    if has_cycle(w) {
        let i = choose|i: int| 0 <= i < w.tags.len() && on_cycle(w, #[trigger] w.tags[i].id);
        let t = w.tags[i].id;
        let p = choose|p: Seq<u64>| #[trigger] is_walk(w, true, p) && p[0] == t && p.last() == t;
        assert forall|k: int| 0 <= k < p.len() implies #[trigger] p[k] != next by {
            if k >= 1 {
                assert(step(w, true, p[k - 1], p[(k - 1) + 1]));
            } else {
                assert(step(w, true, p[p.len() - 2], p[(p.len() - 2) + 1]));
            }
        }
        assert forall|k: int| 0 <= k < p.len() - 1 implies #[trigger] step(v, true, p[k], p[k + 1]) by {
            assert(step(w, true, p[k], p[k + 1]));
            assert(p[k] != next);
        }
        assert(is_walk(v, true, p));
        assert(v.has_tag(t));
        let j = choose|j: int| 0 <= j < v.tags.len() && v.tags[j].id == t;
        assert(on_cycle(v, v.tags[j].id));
    }
    // labels: the new label was owned by no tag
    assert forall|i: int| 0 <= i < n implies !#[trigger] owned_by(v.tags[i], norm) by {
        assert(v.tags.contains(v.tags[i]));
        lemma_none_qualifies(v.tags, owns(norm), v.tags[i]);
    }
    assert forall|i: int, j: int, l: Seq<char>|
        0 <= i < j < w.tags.len() && #[trigger] owned_by(w.tags[i], l) implies !#[trigger] owned_by(
        w.tags[j],
        l,
    ) by {
        if j < n {
            assert(owned_by(v.tags[i], l));
        } else {
            assert(owned_by(v.tags[i], l));
        }
    }
    assert forall|i: int| 0 <= i < w.tags.len() implies !(#[trigger] w.tags[i]).aliases.contains(
        w.tags[i].label,
    ) by {
        if i < n {
            assert(!v.tags[i].aliases.contains(v.tags[i].label));
        }
    }
    assert forall|j: int| 0 <= j < w.bindings.len() implies w.has_tag(#[trigger] w.bindings[j].tag) by {
        assert(v.has_tag(v.bindings[j].tag));
    }
    assert forall|i: int| 0 <= i < w.tags.len() implies (#[trigger] w.tags[i]).id < w.next_tag_id by {
        if i < n {
            assert(v.tags[i].id < v.next_tag_id);
        }
    }
}


/// Changing one tag, keeping its id, its owners apart from every other tag's
/// and its parents existing, keeps a valid state valid when no cycle arises.
proof fn lemma_local_valid(v: FolkView, w: FolkView, i: int)
    requires
        v.wf(),
        valid(v),
        0 <= i < v.tags.len(),
        w.tags == v.tags.update(i, w.tags[i]),
        w.tags[i].id == v.tags[i].id,
        w.bindings == v.bindings,
        w.next_tag_id == v.next_tag_id,
        forall|p: u64| #[trigger] w.tags[i].parents.contains(p) ==> v.has_tag(p),
        forall|j: int, l: Seq<char>|
            0 <= j < v.tags.len() && j != i && #[trigger] owned_by(w.tags[i], l) ==> !#[trigger] owned_by(
                v.tags[j],
                l,
            ),
        !w.tags[i].aliases.contains(w.tags[i].label),
        !has_cycle(w),
    ensures
        valid(w),
{
    assert forall|t: u64| #[trigger] w.has_tag(t) == v.has_tag(t) by {
        if v.has_tag(t) {
            let k = choose|k: int| 0 <= k < v.tags.len() && v.tags[k].id == t;
            assert(w.tags[k].id == t);
        }
        if w.has_tag(t) {
            let k = choose|k: int| 0 <= k < w.tags.len() && w.tags[k].id == t;
            assert(v.tags[k].id == t);
        }
    }
    assert forall|k: int, p: u64|
        0 <= k < w.tags.len() && #[trigger] w.tags[k].parents.contains(p) implies w.has_tag(p) by {
        if k != i {
            assert(v.tags[k].parents.contains(p));
        }
    }
    assert forall|a: int, b: int, l: Seq<char>|
        0 <= a < b < w.tags.len() && #[trigger] owned_by(w.tags[a], l) implies !#[trigger] owned_by(
        w.tags[b],
        l,
    ) by {
        if a == i {
            assert(!owned_by(v.tags[b], l));
        } else if b == i {
            if owned_by(w.tags[b], l) {
                assert(!owned_by(v.tags[a], l));
            }
        } else {
            assert(owned_by(v.tags[a], l));
        }
    }
    assert forall|k: int| 0 <= k < w.tags.len() implies !(#[trigger] w.tags[k]).aliases.contains(
        w.tags[k].label,
    ) by {
        if k != i {
            assert(!v.tags[k].aliases.contains(v.tags[k].label));
        }
    }
    assert forall|j: int| 0 <= j < w.bindings.len() implies w.has_tag(#[trigger] w.bindings[j].tag) by {
        assert(v.has_tag(v.bindings[j].tag));
    }
    assert forall|k: int| 0 <= k < w.tags.len() implies (#[trigger] w.tags[k]).id < w.next_tag_id by {
        assert(v.tags[k].id < v.next_tag_id);
    }
}

/// The position of an existing tag.
proof fn lemma_tag_at(v: FolkView, tag: u64) -> (i: int)
    requires
        v.wf(),
        v.has_tag(tag),
    ensures
        0 <= i < v.tags.len(),
        v.tags[i].id == tag,
        v.tag(tag) == v.tags[i],
        v.tag_index(tag) == i,
{
    let i = v.tag_index(tag);
    i
}

/// A label that `label_check` lets `tag` take is owned by no other tag.
proof fn lemma_label_free(v: FolkView, label: Seq<char>, tag: u64, i: int)
    requires
        v.wf(),
        valid(v),
        0 <= i < v.tags.len(),
        v.tags[i].id == tag,
        label_check(v, label, Some(tag)) is Ok,
    ensures
        forall|j: int| 0 <= j < v.tags.len() && j != i ==> !#[trigger] owned_by(v.tags[j], normalized(label)),
{
    let norm = normalized(label);
    assert forall|j: int| 0 <= j < v.tags.len() && j != i implies !#[trigger] owned_by(v.tags[j], norm) by {
        match first_where(v.tags, owns(norm)) {
            None => {
                assert(v.tags.contains(v.tags[j]));
                lemma_none_qualifies(v.tags, owns(norm), v.tags[j]);
            },
            Some(t) => {
                let k = choose|k: int| is_first(v.tags, owns(norm), k);
                assert(t == v.tags[k]);
                assert(t.id == tag);
                lemma_tag_unique(v.tags, i, k);
                assert(owns(norm)(v.tags[k]));
                assert(owned_by(v.tags[i], norm));
                assert(unique_over(v.tags));
                if i < j {
                    assert(!owned_by(v.tags[j], norm));
                } else {
                    assert(owned_by(v.tags[j], norm) ==> !owned_by(v.tags[i], norm));
                }
            },
        }
    }
}

/// Renaming keeps a valid state valid.
proof fn lemma_rename_valid(v: FolkView, actor: Seq<char>, tag: u64, label: Seq<char>)
    requires
        v.wf(),
        valid(v),
        rename_spec(v, actor, tag, label) is Ok,
    ensures
        valid(fold_events(v, rename_spec(v, actor, tag, label)->Ok_0)),
{
    let es = rename_spec(v, actor, tag, label)->Ok_0;
    let norm = normalized(label);
    let i = lemma_tag_at(v, tag);
    let x = v.tags[i];
    if x.label == norm {
        assert(es =~= Seq::<EventView>::empty());
        assert(fold_events(v, es) == v);
    } else {
        let e = EventView::TagRenamed { tag, old_label: x.label, new_label: norm, by: actor };
        assert(es == seq![e]);
        lemma_fold_one(v, e);
        let w = replay(v, e);
        lemma_map_tag(v.tags, i, renamed(norm));
        let y = renamed(norm)(x);
        assert(w.tags == v.tags.update(i, y));
        lemma_label_free(v, label, tag, i);
        assert forall|j: int, l: Seq<char>|
            0 <= j < v.tags.len() && j != i && #[trigger] owned_by(w.tags[i], l) implies !#[trigger] owned_by(
            v.tags[j],
            l,
        ) by {
            if l != norm {
                lemma_filter_contains_iff(x.aliases, other_than(norm), l);
                assert(owned_by(v.tags[i], l));
                if j < i {
                    assert(!owned_by(v.tags[i], l) || !owned_by(v.tags[j], l));
                }
            }
        }
        lemma_filter_contains_iff(x.aliases, other_than(norm), norm);
        assert(same_shape(v, w));
        lemma_same_shape(v, w);
        lemma_local_valid(v, w, i);
    }
}

/// Adding an alias keeps a valid state valid.
proof fn lemma_add_alias_valid(v: FolkView, actor: Seq<char>, tag: u64, alias: Seq<char>)
    requires
        v.wf(),
        valid(v),
        add_alias_spec(v, actor, tag, alias) is Ok,
    ensures
        valid(fold_events(v, add_alias_spec(v, actor, tag, alias)->Ok_0)),
{
    let es = add_alias_spec(v, actor, tag, alias)->Ok_0;
    let norm = normalized(alias);
    let i = lemma_tag_at(v, tag);
    let x = v.tags[i];
    if x.label == norm || x.aliases.contains(norm) {
        assert(es =~= Seq::<EventView>::empty());
        assert(fold_events(v, es) == v);
    } else {
        let e = EventView::AliasAdded { tag, alias: norm, by: actor };
        assert(es == seq![e]);
        lemma_fold_one(v, e);
        let w = replay(v, e);
        lemma_map_tag(v.tags, i, alias_added(norm));
        let y = alias_added(norm)(x);
        assert(w.tags == v.tags.update(i, y));
        lemma_label_free(v, alias, tag, i);
        assert forall|j: int, l: Seq<char>|
            0 <= j < v.tags.len() && j != i && #[trigger] owned_by(w.tags[i], l) implies !#[trigger] owned_by(
            v.tags[j],
            l,
        ) by {
            if l != norm {
                if y.aliases.contains(l) {
                    lemma_sorted_put_sub(x.aliases, norm, text_lt(), l);
                }
                assert(owned_by(v.tags[i], l));
                if j < i {
                    assert(!owned_by(v.tags[i], l) || !owned_by(v.tags[j], l));
                }
            }
        }
        if y.aliases.contains(y.label) {
            lemma_sorted_put_sub(x.aliases, norm, text_lt(), y.label);
        }
        assert(same_shape(v, w));
        lemma_same_shape(v, w);
        lemma_local_valid(v, w, i);
    }
}

/// Removing an alias keeps a valid state valid.
proof fn lemma_remove_alias_valid(v: FolkView, actor: Seq<char>, tag: u64, alias: Seq<char>)
    requires
        v.wf(),
        valid(v),
        remove_alias_spec(v, actor, tag, alias) is Ok,
    ensures
        valid(fold_events(v, remove_alias_spec(v, actor, tag, alias)->Ok_0)),
{
    let norm = normalized(alias);
    let i = lemma_tag_at(v, tag);
    let x = v.tags[i];
    let e = EventView::AliasRemoved { tag, alias: norm, by: actor };
    lemma_fold_one(v, e);
    let w = replay(v, e);
    lemma_map_tag(v.tags, i, alias_removed(norm));
    let y = alias_removed(norm)(x);
    assert(w.tags == v.tags.update(i, y));
    assert forall|j: int, l: Seq<char>|
        0 <= j < v.tags.len() && j != i && #[trigger] owned_by(w.tags[i], l) implies !#[trigger] owned_by(
        v.tags[j],
        l,
    ) by {
        lemma_filter_contains_iff(x.aliases, other_than(norm), l);
        assert(owned_by(v.tags[i], l));
        if j < i {
            assert(!owned_by(v.tags[i], l) || !owned_by(v.tags[j], l));
        }
    }
    lemma_filter_contains_iff(x.aliases, other_than(norm), x.label);
    assert(same_shape(v, w));
    lemma_same_shape(v, w);
    lemma_local_valid(v, w, i);
}


/// Removing a parent edge keeps a valid state valid.
proof fn lemma_remove_parent_valid(v: FolkView, actor: Seq<char>, child: u64, parent: u64)
    requires
        v.wf(),
        valid(v),
        remove_parent_spec(v, actor, child, parent) is Ok,
    ensures
        valid(fold_events(v, remove_parent_spec(v, actor, child, parent)->Ok_0)),
{
    let i = lemma_tag_at(v, child);
    let x = v.tags[i];
    let e = EventView::ParentRemoved { child, parent, by: actor };
    lemma_fold_one(v, e);
    let w = replay(v, e);
    lemma_map_tag(v.tags, i, parent_removed(parent));
    let y = parent_removed(parent)(x);
    assert(w.tags == v.tags.update(i, y));
    assert forall|p: u64| #[trigger] y.parents.contains(p) implies x.parents.contains(p) by {
        lemma_filter_contains_iff(x.parents, other_than(parent), p);
    }
    assert forall|a: u64, b: u64| #[trigger] parent_edge(w, a, b) implies parent_edge(v, a, b) by {
        let k = choose|k: int| 0 <= k < w.tags.len() && w.tags[k].id == a && w.tags[k].parents.contains(b);
        assert(v.tags[k].id == a && v.tags[k].parents.contains(b));
    }
    assert forall|t: u64| #[trigger] w.has_tag(t) implies v.has_tag(t) by {
        let k = choose|k: int| 0 <= k < w.tags.len() && w.tags[k].id == t;
        assert(v.tags[k].id == t);
    }
    lemma_fewer_edges(v, w);
    assert forall|j: int, l: Seq<char>|
        0 <= j < v.tags.len() && j != i && #[trigger] owned_by(w.tags[i], l) implies !#[trigger] owned_by(
        v.tags[j],
        l,
    ) by {
        assert(owned_by(v.tags[i], l));
        if j < i {
            assert(!owned_by(v.tags[i], l) || !owned_by(v.tags[j], l));
        }
    }
    lemma_local_valid(v, w, i);
}

/// The step at `k` of `p` is the edge from `a` to `b`.
pub open spec fn edge_at(p: Seq<u64>, k: int, a: u64, b: u64) -> bool {
    0 <= k < p.len() - 1 && p[k] == a && p[k + 1] == b
}

/// A step of a walk that is some edge has a first such step.
proof fn lemma_first_edge(p: Seq<u64>, a: u64, b: u64, k: int) -> (f: int)
    requires
        edge_at(p, k, a, b),
    ensures
        edge_at(p, f, a, b),
        forall|j: int| 0 <= j < f ==> !#[trigger] edge_at(p, j, a, b),
    decreases k,
{
    if exists|j: int| 0 <= j < k && #[trigger] edge_at(p, j, a, b) {
        let j = choose|j: int| 0 <= j < k && #[trigger] edge_at(p, j, a, b);
        lemma_first_edge(p, a, b, j)
    } else {
        k
    }
}

/// A step of a walk that is some edge has a last such step.
proof fn lemma_last_edge(p: Seq<u64>, a: u64, b: u64, k: int) -> (l: int)
    requires
        edge_at(p, k, a, b),
    ensures
        edge_at(p, l, a, b),
        forall|j: int| l < j < p.len() - 1 ==> !#[trigger] edge_at(p, j, a, b),
    decreases p.len() - k,
{
    if exists|j: int| k < j < p.len() - 1 && #[trigger] edge_at(p, j, a, b) {
        let j = choose|j: int| k < j < p.len() - 1 && #[trigger] edge_at(p, j, a, b);
        lemma_last_edge(p, a, b, j)
    } else {
        k
    }
}

/// Adding one edge `child -> parent` to an acyclic state, when `parent` does
/// not already reach `child` and the two differ, leaves it acyclic.
proof fn lemma_new_edge_acyclic(v: FolkView, w: FolkView, child: u64, parent: u64)
    requires
        !has_cycle(v),
        child != parent,
        !reaches(v, true, parent, child),
        forall|a: u64, b: u64| #[trigger] parent_edge(w, a, b) ==> parent_edge(v, a, b) || (a == child
            && b == parent),
        forall|t: u64| #[trigger] w.has_tag(t) ==> v.has_tag(t),
    ensures
        !has_cycle(w),
{
    if has_cycle(w) {
        let i = choose|i: int| 0 <= i < w.tags.len() && on_cycle(w, #[trigger] w.tags[i].id);
        let t = w.tags[i].id;
        let p = choose|p: Seq<u64>| #[trigger] is_walk(w, true, p) && p[0] == t && p.last() == t;
        let n = p.len();
        if exists|k: int| #[trigger] edge_at(p, k, child, parent) {
            let k = choose|k: int| #[trigger] edge_at(p, k, child, parent);
            let k1 = lemma_first_edge(p, child, parent, k);
            let k2 = lemma_last_edge(p, child, parent, k);
            let s1 = p.subrange(k2 + 1, n as int);
            let s2 = p.subrange(1, k1 + 1);
            let q = s1 + s2;
            assert(q[0] == parent);
            assert(q.last() == child) by {
                if k1 >= 1 {
                    assert(q.last() == s2.last());
                } else {
                    assert(s2.len() == 0);
                    assert(q.last() == p[n - 1]);
                }
            }
            assert forall|m: int| 0 <= m < q.len() - 1 implies #[trigger] step(v, true, q[m], q[m + 1]) by {
                let j = n - k2 - 1;
                if m < j - 1 {
                    let a = k2 + 1 + m;
                    assert(q[m] == p[a] && q[m + 1] == p[a + 1]);
                    assert(step(w, true, p[a], p[a + 1]));
                    assert(!edge_at(p, a, child, parent));
                } else if m == j - 1 {
                    assert(q[m] == p[n - 1]);
                    assert(q[m + 1] == p[1]);
                    assert(step(w, true, p[0], p[0int + 1]));
                    assert(!edge_at(p, 0, child, parent));
                } else {
                    let a = 1 + (m - j);
                    assert(q[m] == p[a] && q[m + 1] == p[a + 1]);
                    assert(step(w, true, p[a], p[a + 1]));
                    assert(!edge_at(p, a, child, parent));
                }
            }
            if q.len() >= 2 {
                assert(is_walk(v, true, q));
            }
        } else {
            assert forall|k: int| 0 <= k < n - 1 implies #[trigger] step(v, true, p[k], p[k + 1]) by {
                assert(step(w, true, p[k], p[k + 1]));
                assert(!edge_at(p, k, child, parent));
            }
            assert(is_walk(v, true, p));
            assert(w.has_tag(t));
            let j = choose|j: int| 0 <= j < v.tags.len() && v.tags[j].id == t;
            assert(on_cycle(v, v.tags[j].id));
        }
    }
}

/// Adding a parent edge keeps a valid state valid.
proof fn lemma_add_parent_valid(v: FolkView, actor: Seq<char>, child: u64, parent: u64)
    requires
        v.wf(),
        valid(v),
        add_parent_spec(v, actor, child, parent) is Ok,
    ensures
        valid(fold_events(v, add_parent_spec(v, actor, child, parent)->Ok_0)),
{
    let es = add_parent_spec(v, actor, child, parent)->Ok_0;
    let i = lemma_tag_at(v, child);
    let x = v.tags[i];
    if x.parents.contains(parent) {
        assert(es =~= Seq::<EventView>::empty());
        assert(fold_events(v, es) == v);
    } else {
        let e = EventView::ParentAdded { child, parent, by: actor };
        assert(es == seq![e]);
        lemma_fold_one(v, e);
        let w = replay(v, e);
        lemma_map_tag(v.tags, i, parent_added(parent));
        let y = parent_added(parent)(x);
        assert(w.tags == v.tags.update(i, y));
        assert forall|p: u64| #[trigger] y.parents.contains(p) implies x.parents.contains(p) || p
            == parent by {
            lemma_sorted_put_sub(x.parents, parent, id_lt(), p);
        }
        assert forall|a: u64, b: u64| #[trigger] parent_edge(w, a, b) implies parent_edge(v, a, b) || (a
            == child && b == parent) by {
            let k = choose|k: int|
                0 <= k < w.tags.len() && w.tags[k].id == a && w.tags[k].parents.contains(b);
            if k != i || b != parent {
                assert(v.tags[k].id == a && v.tags[k].parents.contains(b));
            }
        }
        assert forall|t: u64| #[trigger] w.has_tag(t) implies v.has_tag(t) by {
            let k = choose|k: int| 0 <= k < w.tags.len() && w.tags[k].id == t;
            assert(v.tags[k].id == t);
        }
        lemma_new_edge_acyclic(v, w, child, parent);
        assert forall|p: u64| #[trigger] w.tags[i].parents.contains(p) implies v.has_tag(p) by {
            if p != parent {
                assert(x.parents.contains(p));
            }
        }
        assert forall|j: int, l: Seq<char>|
            0 <= j < v.tags.len() && j != i && #[trigger] owned_by(w.tags[i], l) implies !#[trigger] owned_by(
            v.tags[j],
            l,
        ) by {
            assert(owned_by(v.tags[i], l));
            if j < i {
                assert(!owned_by(v.tags[i], l) || !owned_by(v.tags[j], l));
            }
        }
        lemma_local_valid(v, w, i);
    }
}


/// Changing only bindings, each of an existing tag, keeps a valid state
/// valid.
proof fn lemma_bindings_valid(v: FolkView, w: FolkView)
    requires
        valid(v),
        w.tags == v.tags,
        w.next_tag_id == v.next_tag_id,
        forall|b: BindingView| #[trigger] w.bindings.contains(b) ==> v.bindings.contains(b) || v.has_tag(b.tag),
    ensures
        valid(w),
{
    assert(same_shape(v, w));
    lemma_same_shape(v, w);
    assert forall|j: int| 0 <= j < w.bindings.len() implies w.has_tag(#[trigger] w.bindings[j].tag) by {
        assert(w.bindings.contains(w.bindings[j]));
        if v.bindings.contains(w.bindings[j]) {
            let k = choose|k: int| 0 <= k < v.bindings.len() && v.bindings[k] == w.bindings[j];
            assert(v.has_tag(v.bindings[k].tag));
        }
    }
    assert(labels_unique(w));
}

/// Tagging keeps a valid state valid.
proof fn lemma_tag_valid(v: FolkView, actor: Seq<char>, item: Seq<char>, tag: u64, visibility: Visibility)
    requires
        valid(v),
        tag_spec(v, actor, item, tag, visibility) is Ok,
    ensures
        valid(fold_events(v, tag_spec(v, actor, item, tag, visibility)->Ok_0)),
{
    let es = tag_spec(v, actor, item, tag, visibility)->Ok_0;
    let bv = BindingView { item, tag, tagger: actor, visibility };
    if es.len() == 0 {
        assert(es =~= Seq::<EventView>::empty());
        assert(fold_events(v, es) == v);
    } else {
        let e = es[0];
        assert(es == seq![e]);
        lemma_fold_one(v, e);
        let w = replay(v, e);
        assert(w.bindings == sorted_put(v.bindings, bv, binding_lt()));
        assert forall|b: BindingView| #[trigger] w.bindings.contains(b) implies v.bindings.contains(b)
            || v.has_tag(b.tag) by {
            lemma_sorted_put_sub(v.bindings, bv, binding_lt(), b);
        }
        lemma_bindings_valid(v, w);
    }
}

/// Untagging keeps a valid state valid.
proof fn lemma_untag_valid(
    v: FolkView,
    actor: Seq<char>,
    item: Seq<char>,
    tag: u64,
    tagger: Option<Seq<char>>,
)
    requires
        valid(v),
        untag_spec(v, actor, item, tag, tagger) is Ok,
    ensures
        valid(fold_events(v, untag_spec(v, actor, item, tag, tagger)->Ok_0)),
{
    let es = untag_spec(v, actor, item, tag, tagger)->Ok_0;
    let e = es[0];
    assert(es == seq![e]);
    lemma_fold_one(v, e);
    let w = replay(v, e);
    assert forall|b: BindingView| #[trigger] w.bindings.contains(b) implies v.bindings.contains(b)
        || v.has_tag(b.tag) by {
        if let EventView::Untagged { item, tag, tagger, .. } = e {
            lemma_filter_sub(v.bindings, key_other_than(probe(item, tag, tagger)), b);
        }
    }
    lemma_bindings_valid(v, w);
}

/// Keeping only some tags, none of them listed as a parent or bound,
/// keeps a valid state valid, provided the result keeps its shape.
proof fn lemma_fewer_tags_valid(v: FolkView, w: FolkView, gone: u64)
    requires
        valid(v),
        w.wf(),
        w.tags == v.tags.filter(tag_other_than(gone)),
        w.bindings == v.bindings,
        w.next_tag_id == v.next_tag_id,
        !has_children(v, gone),
        !has_bindings(v, gone),
    ensures
        valid(w),
{
    assert forall|k: int| 0 <= k < w.tags.len() implies exists|m: int|
        0 <= m < v.tags.len() && v.tags[m] == #[trigger] w.tags[k] && w.tags[k].id != gone by {
        assert(w.tags.contains(w.tags[k]));
        lemma_filter_contains_iff(v.tags, tag_other_than(gone), w.tags[k]);
    }
    assert forall|t: u64| #[trigger] w.has_tag(t) <==> (v.has_tag(t) && t != gone) by {
        if w.has_tag(t) {
            let k = choose|k: int| 0 <= k < w.tags.len() && w.tags[k].id == t;
            let m = choose|m: int| 0 <= m < v.tags.len() && v.tags[m] == #[trigger] w.tags[k] && w.tags[k].id != gone;
            assert(v.tags[m].id == t);
        }
        if v.has_tag(t) && t != gone {
            let m = choose|m: int| 0 <= m < v.tags.len() && v.tags[m].id == t;
            lemma_filter_contains_iff(v.tags, tag_other_than(gone), v.tags[m]);
            let k = choose|k: int| 0 <= k < w.tags.len() && w.tags[k] == v.tags[m];
            assert(w.tags[k].id == t);
        }
    }
    assert forall|k: int, p: u64|
        0 <= k < w.tags.len() && #[trigger] w.tags[k].parents.contains(p) implies w.has_tag(p) by {
        let m = choose|m: int| 0 <= m < v.tags.len() && v.tags[m] == #[trigger] w.tags[k] && w.tags[k].id != gone;
        assert(v.tags[m].parents.contains(p));
        assert(v.has_tag(p));
    }
    assert forall|a: u64, b: u64| #[trigger] parent_edge(w, a, b) implies parent_edge(v, a, b) by {
        let k = choose|k: int| 0 <= k < w.tags.len() && w.tags[k].id == a && w.tags[k].parents.contains(b);
        let m = choose|m: int| 0 <= m < v.tags.len() && v.tags[m] == #[trigger] w.tags[k] && w.tags[k].id != gone;
        assert(v.tags[m].id == a && v.tags[m].parents.contains(b));
    }
    lemma_fewer_edges(v, w);
    assert forall|a: int, b: int, l: Seq<char>|
        0 <= a < b < w.tags.len() && #[trigger] owned_by(w.tags[a], l) implies !#[trigger] owned_by(
        w.tags[b],
        l,
    ) by {
        let ma = choose|m: int| 0 <= m < v.tags.len() && v.tags[m] == #[trigger] w.tags[a] && w.tags[a].id != gone;
        let mb = choose|m: int| 0 <= m < v.tags.len() && v.tags[m] == #[trigger] w.tags[b] && w.tags[b].id != gone;
        assert(tag_lt()(w.tags[a], w.tags[b]));
        assert(ma != mb);
        assert(owned_by(v.tags[ma], l));
        if ma < mb {
            assert(!owned_by(v.tags[mb], l));
        } else {
            assert(owned_by(v.tags[mb], l) ==> !owned_by(v.tags[ma], l));
        }
    }
    assert forall|k: int| 0 <= k < w.tags.len() implies !(#[trigger] w.tags[k]).aliases.contains(
        w.tags[k].label,
    ) by {
        let m = choose|m: int| 0 <= m < v.tags.len() && v.tags[m] == #[trigger] w.tags[k] && w.tags[k].id != gone;
        assert(!v.tags[m].aliases.contains(v.tags[m].label));
    }
    assert forall|j: int| 0 <= j < w.bindings.len() implies w.has_tag(#[trigger] w.bindings[j].tag) by {
        assert(v.has_tag(v.bindings[j].tag));
        assert(v.bindings[j].tag != gone);
    }
    assert forall|k: int| 0 <= k < w.tags.len() implies (#[trigger] w.tags[k]).id < w.next_tag_id by {
        let m = choose|m: int| 0 <= m < v.tags.len() && v.tags[m] == #[trigger] w.tags[k] && w.tags[k].id != gone;
        assert(v.tags[m].id < v.next_tag_id);
    }
}

/// Retiring keeps a valid state valid.
proof fn lemma_retire_valid(v: FolkView, actor: Seq<char>, tag: u64)
    requires
        valid(v),
        retire_spec(v, actor, tag) is Ok,
        fold_events(v, retire_spec(v, actor, tag)->Ok_0).wf(),
    ensures
        valid(fold_events(v, retire_spec(v, actor, tag)->Ok_0)),
{
    let es = retire_spec(v, actor, tag)->Ok_0;
    let e = es[0];
    assert(es == seq![e]);
    lemma_fold_one(v, e);
    lemma_fewer_tags_valid(v, replay(v, e), tag);
}


// ---------------------------------------------------------------------------
// What runs of one kind of event do.

/// The event adds the edge `c -> p`.
pub open spec fn adds_parent(e: EventView, c: u64, p: u64) -> bool {
    e matches EventView::ParentAdded { child, parent, .. } && child == c && parent == p
}

/// The event removes the edge `c -> p`.
pub open spec fn drops_parent(e: EventView, c: u64, p: u64) -> bool {
    e matches EventView::ParentRemoved { child, parent, .. } && child == c && parent == p
}

/// Some event of the list adds the edge `c -> p`.
pub open spec fn added_edge(es: Seq<EventView>, c: u64, p: u64) -> bool {
    exists|k: int| 0 <= k < es.len() && #[trigger] adds_parent(es[k], c, p)
}

/// Some event of the list removes the edge `c -> p`.
pub open spec fn dropped_edge(es: Seq<EventView>, c: u64, p: u64) -> bool {
    exists|k: int| 0 <= k < es.len() && #[trigger] drops_parent(es[k], c, p)
}

/// Every event of the list adds or removes an edge.
pub open spec fn edges_only(es: Seq<EventView>) -> bool {
    forall|k: int| 0 <= k < es.len() ==> (#[trigger] es[k] is ParentAdded || es[k] is ParentRemoved)
}

/// Folding edge events changes only parents: a parent afterwards was there
/// before and not removed, or was added.
pub(crate) proof fn lemma_edge_fold(v: FolkView, es: Seq<EventView>)
    requires
        edges_only(es),
    ensures
        ({
            let u = fold_events(v, es);
            &&& u.tags.len() == v.tags.len()
            &&& u.next_tag_id == v.next_tag_id
            &&& u.bindings == v.bindings
            &&& u.curators == v.curators
            &&& forall|i: int|
                0 <= i < v.tags.len() ==> (#[trigger] u.tags[i]).id == v.tags[i].id && u.tags[i].label
                    == v.tags[i].label && u.tags[i].aliases == v.tags[i].aliases
            &&& forall|i: int, p: u64|
                0 <= i < v.tags.len() && #[trigger] u.tags[i].parents.contains(p) ==> (
                v.tags[i].parents.contains(p) && !dropped_edge(es, v.tags[i].id, p)) || added_edge(
                    es,
                    v.tags[i].id,
                    p,
                )
        }),
    decreases es.len(),
{
    if es.len() > 0 {
        let r = es.drop_last();
        let e = es.last();
        assert forall|k: int| 0 <= k < r.len() implies (#[trigger] r[k] is ParentAdded || r[k] is ParentRemoved) by {
            assert(r[k] == es[k]);
        }
        lemma_edge_fold(v, r);
        let u1 = fold_events(v, r);
        let u = fold_events(v, es);
        assert(u == replay(u1, e));
        assert(e == es[es.len() - 1]);
        assert forall|c: u64, p: u64| #[trigger] added_edge(r, c, p) implies added_edge(es, c, p) by {
            let k = choose|k: int| 0 <= k < r.len() && #[trigger] adds_parent(r[k], c, p);
            assert(es[k] == r[k]);
        }
        assert forall|c: u64, p: u64| #[trigger] dropped_edge(es, c, p) implies dropped_edge(r, c, p)
            || drops_parent(e, c, p) by {
            let k = choose|k: int| 0 <= k < es.len() && #[trigger] drops_parent(es[k], c, p);
            if k < r.len() {
                assert(r[k] == es[k]);
            }
        }
        match e {
            EventView::ParentAdded { child, parent, .. } => {
                assert forall|i: int, p: u64|
                    0 <= i < v.tags.len() && #[trigger] u.tags[i].parents.contains(p) implies (
                    v.tags[i].parents.contains(p) && !dropped_edge(es, v.tags[i].id, p)) || added_edge(
                    es,
                    v.tags[i].id,
                    p,
                ) by {
                    if u1.tags[i].id == child {
                        lemma_sorted_put_sub(u1.tags[i].parents, parent, id_lt(), p);
                        if p == parent {
                            assert(adds_parent(es[es.len() - 1], v.tags[i].id, p));
                        } else {
                            assert(u1.tags[i].parents.contains(p));
                        }
                    } else {
                        assert(u1.tags[i].parents.contains(p));
                    }
                }
            },
            EventView::ParentRemoved { child, parent, .. } => {
                assert forall|i: int, p: u64|
                    0 <= i < v.tags.len() && #[trigger] u.tags[i].parents.contains(p) implies (
                    v.tags[i].parents.contains(p) && !dropped_edge(es, v.tags[i].id, p)) || added_edge(
                    es,
                    v.tags[i].id,
                    p,
                ) by {
                    if u1.tags[i].id == child {
                        lemma_filter_contains_iff(u1.tags[i].parents, other_than(parent), p);
                    }
                    assert(u1.tags[i].parents.contains(p));
                }
            },
            _ => {},
        }
    }
}


/// The event adds the alias `l` to tag `t`.
pub open spec fn adds_alias(e: EventView, t: u64, l: Seq<char>) -> bool {
    e matches EventView::AliasAdded { tag, alias, .. } && tag == t && alias == l
}

/// Some event of the list adds the alias `l` to tag `t`.
pub open spec fn added_alias(es: Seq<EventView>, t: u64, l: Seq<char>) -> bool {
    exists|k: int| 0 <= k < es.len() && #[trigger] adds_alias(es[k], t, l)
}

/// Every event of the list adds an alias.
pub open spec fn aliases_only(es: Seq<EventView>) -> bool {
    forall|k: int| 0 <= k < es.len() ==> #[trigger] es[k] is AliasAdded
}

/// Folding alias additions changes only aliases: an alias afterwards was
/// there before or was added.
pub(crate) proof fn lemma_alias_fold(v: FolkView, es: Seq<EventView>)
    requires
        aliases_only(es),
    ensures
        ({
            let u = fold_events(v, es);
            &&& u.tags.len() == v.tags.len()
            &&& u.next_tag_id == v.next_tag_id
            &&& u.bindings == v.bindings
            &&& forall|i: int|
                0 <= i < v.tags.len() ==> (#[trigger] u.tags[i]).id == v.tags[i].id && u.tags[i].label
                    == v.tags[i].label && u.tags[i].parents == v.tags[i].parents
            &&& forall|i: int, l: Seq<char>|
                0 <= i < v.tags.len() && #[trigger] u.tags[i].aliases.contains(l) ==> v.tags[i].aliases.contains(l)
                    || added_alias(es, v.tags[i].id, l)
        }),
    decreases es.len(),
{
    if es.len() > 0 {
        let r = es.drop_last();
        let e = es.last();
        assert forall|k: int| 0 <= k < r.len() implies #[trigger] r[k] is AliasAdded by {
            assert(r[k] == es[k]);
        }
        lemma_alias_fold(v, r);
        let u1 = fold_events(v, r);
        let u = fold_events(v, es);
        assert(u == replay(u1, e));
        assert(e == es[es.len() - 1]);
        assert forall|t: u64, l: Seq<char>| #[trigger] added_alias(r, t, l) implies added_alias(es, t, l) by {
            let k = choose|k: int| 0 <= k < r.len() && #[trigger] adds_alias(r[k], t, l);
            assert(es[k] == r[k]);
        }
        if let EventView::AliasAdded { tag, alias, .. } = e {
            assert forall|i: int, l: Seq<char>|
                0 <= i < v.tags.len() && #[trigger] u.tags[i].aliases.contains(l) implies v.tags[i].aliases.contains(
                l,
            ) || added_alias(es, v.tags[i].id, l) by {
                if u1.tags[i].id == tag {
                    lemma_sorted_put_sub(u1.tags[i].aliases, alias, text_lt(), l);
                    if l == alias {
                        assert(adds_alias(es[es.len() - 1], v.tags[i].id, l));
                    } else {
                        assert(u1.tags[i].aliases.contains(l));
                    }
                } else {
                    assert(u1.tags[i].aliases.contains(l));
                }
            }
        }
    }
}

/// The event removes the binding with `b`'s identity.
pub open spec fn untags(e: EventView, b: BindingView) -> bool {
    e matches EventView::Untagged { item, tag, tagger, .. } && item == b.item && tag == b.tag
        && tagger == b.tagger
}

/// The event adds exactly the binding `b`.
pub open spec fn tags_binding(e: EventView, b: BindingView) -> bool {
    e matches EventView::Tagged { item, tag, tagger, visibility } && b == (BindingView {
        item,
        tag,
        tagger,
        visibility,
    })
}

/// Some event of the list removes `b`'s identity.
pub open spec fn untagged(es: Seq<EventView>, b: BindingView) -> bool {
    exists|k: int| 0 <= k < es.len() && #[trigger] untags(es[k], b)
}

/// Some event of the list adds `b`.
pub open spec fn tagged(es: Seq<EventView>, b: BindingView) -> bool {
    exists|k: int| 0 <= k < es.len() && #[trigger] tags_binding(es[k], b)
}

/// Every event of the list adds or removes a binding.
pub open spec fn bindings_only(es: Seq<EventView>) -> bool {
    forall|k: int| 0 <= k < es.len() ==> (#[trigger] es[k] is Tagged || es[k] is Untagged)
}

/// Folding binding events changes only bindings: a binding afterwards was
/// there before and not removed, or was added.
pub(crate) proof fn lemma_binding_fold(v: FolkView, es: Seq<EventView>)
    requires
        bindings_only(es),
    ensures
        ({
            let u = fold_events(v, es);
            &&& u.tags == v.tags
            &&& u.next_tag_id == v.next_tag_id
            &&& forall|b: BindingView| #[trigger] u.bindings.contains(b) ==> (v.bindings.contains(b)
                && !untagged(es, b)) || tagged(es, b)
        }),
    decreases es.len(),
{
    if es.len() > 0 {
        let r = es.drop_last();
        let e = es.last();
        assert forall|k: int| 0 <= k < r.len() implies (#[trigger] r[k] is Tagged || r[k] is Untagged) by {
            assert(r[k] == es[k]);
        }
        lemma_binding_fold(v, r);
        let u1 = fold_events(v, r);
        let u = fold_events(v, es);
        assert(u == replay(u1, e));
        assert(e == es[es.len() - 1]);
        assert forall|b: BindingView| #[trigger] tagged(r, b) implies tagged(es, b) by {
            let k = choose|k: int| 0 <= k < r.len() && #[trigger] tags_binding(r[k], b);
            assert(es[k] == r[k]);
        }
        assert forall|b: BindingView| #[trigger] untagged(es, b) implies untagged(r, b) || untags(e, b) by {
            let k = choose|k: int| 0 <= k < es.len() && #[trigger] untags(es[k], b);
            if k < r.len() {
                assert(r[k] == es[k]);
            }
        }
        match e {
            EventView::Tagged { item, tag, tagger, visibility } => {
                let bv = BindingView { item, tag, tagger, visibility };
                assert forall|b: BindingView| #[trigger] u.bindings.contains(b) implies (v.bindings.contains(b)
                    && !untagged(es, b)) || tagged(es, b) by {
                    lemma_sorted_put_sub(u1.bindings, bv, binding_lt(), b);
                    if b == bv {
                        assert(tags_binding(es[es.len() - 1], b));
                    } else {
                        assert(u1.bindings.contains(b));
                    }
                }
            },
            EventView::Untagged { item, tag, tagger, .. } => {
                assert forall|b: BindingView| #[trigger] u.bindings.contains(b) implies (v.bindings.contains(b)
                    && !untagged(es, b)) || tagged(es, b) by {
                    lemma_filter_contains_iff(u1.bindings, key_other_than(probe(item, tag, tagger)), b);
                    assert(u1.bindings.contains(b));
                }
            },
            _ => {},
        }
    }
}


// ---------------------------------------------------------------------------
// The events of a merge.

/// Step 1 of a merge only touches edges: it adds edges to `into` only, and
/// removes each child's edge to `source`.
pub(crate) proof fn lemma_child_edge_events(cs: Seq<TagView>, source: u64, into: u64, by: Seq<char>)
    ensures
        edges_only(child_edge_events(cs, source, into, by)),
        forall|c: u64, p: u64| #[trigger] added_edge(child_edge_events(cs, source, into, by), c, p) ==> p
            == into,
        forall|i: int| 0 <= i < cs.len() ==> dropped_edge(child_edge_events(cs, source, into, by), #[trigger] cs[i].id, source),
    decreases cs.len(),
{
    if cs.len() > 0 {
        let rest = cs.drop_last();
        let c = cs.last();
        lemma_child_edge_events(rest, source, into, by);
        let a = child_edge_events(rest, source, into, by);
        let rm = seq![EventView::ParentRemoved { child: c.id, parent: source, by }];
        let tail = if c.id != into && !c.parents.contains(into) {
            seq![EventView::ParentAdded { child: c.id, parent: into, by }]
        } else {
            Seq::empty()
        };
        let es = child_edge_events(cs, source, into, by);
        assert(es == a + rm + tail);
        assert forall|k: int| 0 <= k < es.len() implies (#[trigger] es[k] is ParentAdded || es[k] is ParentRemoved) by {
            if k < a.len() {
                assert(es[k] == a[k]);
            }
        }
        assert forall|x: u64, p: u64| #[trigger] added_edge(es, x, p) implies p == into by {
            let k = choose|k: int| 0 <= k < es.len() && #[trigger] adds_parent(es[k], x, p);
            if k < a.len() {
                assert(es[k] == a[k]);
                assert(added_edge(a, x, p));
            }
        }
        assert forall|i: int| 0 <= i < cs.len() implies dropped_edge(es, #[trigger] cs[i].id, source) by {
            if i < rest.len() {
                assert(rest[i] == cs[i]);
                assert(dropped_edge(a, rest[i].id, source));
                let k = choose|k: int| 0 <= k < a.len() && #[trigger] drops_parent(a[k], rest[i].id, source);
                assert(es[k] == a[k]);
            } else {
                assert(es[a.len() as int] == rm[0]);
                assert(drops_parent(es[a.len() as int], cs[i].id, source));
            }
        }
    }
}

/// Step 2 of a merge only adds edges from `into` to parents of `source`
/// other than `into`.
pub(crate) proof fn lemma_parent_edge_events(ps: Seq<u64>, into: u64, held: Seq<u64>, by: Seq<char>)
    ensures
        edges_only(parent_edge_events(ps, into, held, by)),
        forall|c: u64, p: u64| #[trigger] added_edge(parent_edge_events(ps, into, held, by), c, p) ==> c
            == into && ps.contains(p) && p != into,
    decreases ps.len(),
{
    if ps.len() > 0 {
        let rest = ps.drop_last();
        let p = ps.last();
        lemma_parent_edge_events(rest, into, held, by);
        let a = parent_edge_events(rest, into, held, by);
        let tail = if p != into && !held.contains(p) {
            seq![EventView::ParentAdded { child: into, parent: p, by }]
        } else {
            Seq::empty()
        };
        let es = parent_edge_events(ps, into, held, by);
        assert(es == a + tail);
        assert forall|k: int| 0 <= k < es.len() implies (#[trigger] es[k] is ParentAdded || es[k] is ParentRemoved) by {
            if k < a.len() {
                assert(es[k] == a[k]);
            }
        }
        assert forall|x: u64, q: u64| #[trigger] added_edge(es, x, q) implies x == into && ps.contains(q)
            && q != into by {
            let k = choose|k: int| 0 <= k < es.len() && #[trigger] adds_parent(es[k], x, q);
            if k < a.len() {
                assert(es[k] == a[k]);
                assert(added_edge(a, x, q));
                let j = choose|j: int| 0 <= j < rest.len() && rest[j] == q;
                assert(ps[j] == q);
            } else {
                assert(ps[ps.len() - 1] == q);
            }
        }
    }
}

/// Step 3 of a merge only adds aliases of `source` to `into`, never its
/// preferred label.
pub(crate) proof fn lemma_alias_events(ls: Seq<Seq<char>>, into: TagView, by: Seq<char>)
    ensures
        aliases_only(alias_events(ls, into, by)),
        forall|t: u64, l: Seq<char>| #[trigger] added_alias(alias_events(ls, into, by), t, l) ==> t
            == into.id && ls.contains(l) && l != into.label,
    decreases ls.len(),
{
    if ls.len() > 0 {
        let rest = ls.drop_last();
        let x = ls.last();
        lemma_alias_events(rest, into, by);
        let a = alias_events(rest, into, by);
        let tail = if x != into.label && !into.aliases.contains(x) && !rest.contains(x) {
            seq![EventView::AliasAdded { tag: into.id, alias: x, by }]
        } else {
            Seq::empty()
        };
        let es = alias_events(ls, into, by);
        assert(es == a + tail);
        assert forall|k: int| 0 <= k < es.len() implies #[trigger] es[k] is AliasAdded by {
            if k < a.len() {
                assert(es[k] == a[k]);
            }
        }
        assert forall|t: u64, l: Seq<char>| #[trigger] added_alias(es, t, l) implies t == into.id
            && ls.contains(l) && l != into.label by {
            let k = choose|k: int| 0 <= k < es.len() && #[trigger] adds_alias(es[k], t, l);
            if k < a.len() {
                assert(es[k] == a[k]);
                assert(added_alias(a, t, l));
                let j = choose|j: int| 0 <= j < rest.len() && rest[j] == l;
                assert(ls[j] == l);
            } else {
                assert(ls[ls.len() - 1] == l);
            }
        }
    }
}

/// Step 4 of a merge only moves bindings: what it adds is on `into`, and it
/// removes each binding of the list.
pub(crate) proof fn lemma_binding_events(ms: Seq<BindingView>, v: FolkView, source: u64, into: u64)
    ensures
        bindings_only(binding_events(ms, v, source, into)),
        forall|b: BindingView| #[trigger] tagged(binding_events(ms, v, source, into), b) ==> b.tag == into,
        forall|i: int| 0 <= i < ms.len() && (#[trigger] ms[i]).tag == source ==> untagged(
            binding_events(ms, v, source, into),
            ms[i],
        ),
    decreases ms.len(),
{
    if ms.len() > 0 {
        let rest = ms.drop_last();
        let m = ms.last();
        lemma_binding_events(rest, v, source, into);
        let a = binding_events(rest, v, source, into);
        let mid = seq![
            EventView::Untagged {
                item: m.item,
                tag: source,
                tagger: m.tagger,
                visibility: m.visibility,
            },
        ];
        let tail = if target_taken(v, m, into) {
            Seq::empty()
        } else {
            seq![
                EventView::Tagged {
                    item: m.item,
                    tag: into,
                    tagger: m.tagger,
                    visibility: m.visibility,
                },
            ]
        };
        let es = binding_events(ms, v, source, into);
        assert(es == a + mid + tail);
        assert forall|k: int| 0 <= k < es.len() implies (#[trigger] es[k] is Tagged || es[k] is Untagged) by {
            if k < a.len() {
                assert(es[k] == a[k]);
            }
        }
        assert forall|b: BindingView| #[trigger] tagged(es, b) implies b.tag == into by {
            let k = choose|k: int| 0 <= k < es.len() && #[trigger] tags_binding(es[k], b);
            if k < a.len() {
                assert(es[k] == a[k]);
                assert(tagged(a, b));
            }
        }
        assert forall|i: int| 0 <= i < ms.len() && (#[trigger] ms[i]).tag == source implies untagged(es, ms[i]) by {
            if i < rest.len() {
                assert(rest[i] == ms[i]);
                assert(untagged(a, rest[i]));
                let k = choose|k: int| 0 <= k < a.len() && #[trigger] untags(a[k], rest[i]);
                assert(es[k] == a[k]);
            } else {
                assert(es[a.len() as int] == mid[0]);
                assert(untags(es[a.len() as int], ms[i]));
            }
        }
    }
}


/// In a valid state no label has two owners.
proof fn lemma_one_owner(v: FolkView, i: int, j: int, l: Seq<char>)
    requires
        labels_unique(v),
        0 <= i < v.tags.len(),
        0 <= j < v.tags.len(),
        i != j,
        owned_by(v.tags[i], l),
    ensures
        !owned_by(v.tags[j], l),
{
    assert(unique_over(v.tags));
    if j < i {
        assert(owned_by(v.tags[j], l) ==> !owned_by(v.tags[i], l));
    }
}

/// Merging keeps a valid state valid.
proof fn lemma_merge_valid(v: FolkView, actor: Seq<char>, source: u64, into: u64)
    requires
        v.wf(),
        valid(v),
        merge_spec(v, actor, source, into) is Ok,
        fold_events(v, merge_spec(v, actor, source, into)->Ok_0).wf(),
    ensures
        valid(fold_events(v, merge_spec(v, actor, source, into)->Ok_0)),
{
    let es = merge_spec(v, actor, source, into)->Ok_0;
    let is = lemma_tag_at(v, source);
    let ii = lemma_tag_at(v, into);
    let src = v.tags[is];
    let tgt = v.tags[ii];
    let n = v.tags.len();
    let cs = v.tags.filter(child_of(source));
    let ce = child_edge_events(cs, source, into, actor);
    let held = tgt.parents.filter(other_than(source));
    let pe = parent_edge_events(src.parents, into, held, actor);
    let e = ce + pe;
    assert(e == merge_edge_events(v, actor, source, into));
    let ls = seq![src.label] + src.aliases;
    let a = alias_events(ls, tgt, actor);
    let ms = v.bindings.filter(bound_to(source));
    let b = binding_events(ms, v, source, into);
    let m = EventView::TagsMerged {
        source,
        into,
        moved_bindings: moved_count(ms, v, into) as u32,
        by: actor,
    };
    assert(es == e + a + b + seq![m]);
    law_fold_split(v, e + a + b, seq![m]);
    law_fold_split(v, e + a, b);
    law_fold_split(v, e, a);
    let v1 = fold_events(v, e);
    let v2 = fold_events(v1, a);
    let v3 = fold_events(v2, b);
    lemma_fold_one(v3, m);
    let w = replay(v3, m);
    assert(fold_events(v, es) == w);
    assert(w.tags == v3.tags.filter(tag_other_than(source)));
    // The edge events.
    lemma_child_edge_events(cs, source, into, actor);
    lemma_parent_edge_events(src.parents, into, held, actor);
    assert forall|k: int| 0 <= k < e.len() implies (#[trigger] e[k] is ParentAdded || e[k] is ParentRemoved) by {
        if k < ce.len() {
            assert(e[k] == ce[k]);
        } else {
            assert(e[k] == pe[k - ce.len()]);
        }
    }
    assert forall|c: u64, p: u64| #[trigger] added_edge(e, c, p) implies p == into || (c == into
        && src.parents.contains(p) && p != into) by {
        let k = choose|k: int| 0 <= k < e.len() && #[trigger] adds_parent(e[k], c, p);
        if k < ce.len() {
            assert(e[k] == ce[k]);
            assert(added_edge(ce, c, p));
        } else {
            assert(e[k] == pe[k - ce.len()]);
            assert(added_edge(pe, c, p));
        }
    }
    assert forall|i: int| 0 <= i < cs.len() implies dropped_edge(e, #[trigger] cs[i].id, source) by {
        assert(dropped_edge(ce, cs[i].id, source));
        let k = choose|k: int| 0 <= k < ce.len() && #[trigger] drops_parent(ce[k], cs[i].id, source);
        assert(e[k] == ce[k]);
    }
    lemma_edge_fold(v, e);
    lemma_alias_events(ls, tgt, actor);
    lemma_alias_fold(v1, a);
    lemma_binding_events(ms, v, source, into);
    lemma_binding_fold(v2, b);
    // What each tag of v3 is, position by position.
    assert(v3.tags.len() == n);
    assert forall|i: int| 0 <= i < n implies (#[trigger] v3.tags[i]).id == v.tags[i].id
        && v3.tags[i].label == v.tags[i].label && v3.tags[i].parents == v1.tags[i].parents by {
        assert(v2.tags[i].id == v1.tags[i].id);
    }
    // The source's parents exist and are not the source.
    assert(!src.parents.contains(source)) by {
        if src.parents.contains(source) {
            assert(step(v, true, source, source));
            let p = seq![source, source];
            assert(is_walk(v, true, p));
            assert(on_cycle(v, v.tags[is].id));
        }
    }
    // Tags of w.
    assert forall|k: int| 0 <= k < w.tags.len() implies exists|i: int|
        0 <= i < n && v3.tags[i] == #[trigger] w.tags[k] && w.tags[k].id != source by {
        assert(w.tags.contains(w.tags[k]));
        lemma_filter_contains_iff(v3.tags, tag_other_than(source), w.tags[k]);
    }
    assert forall|t: u64| #[trigger] w.has_tag(t) <==> (v.has_tag(t) && t != source) by {
        if w.has_tag(t) {
            let k = choose|k: int| 0 <= k < w.tags.len() && w.tags[k].id == t;
            let i = choose|i: int| 0 <= i < n && v3.tags[i] == #[trigger] w.tags[k] && w.tags[k].id != source;
            assert(v.tags[i].id == t);
        }
        if v.has_tag(t) && t != source {
            let i = choose|i: int| 0 <= i < n && v.tags[i].id == t;
            assert(v3.tags[i].id == t);
            lemma_filter_contains_iff(v3.tags, tag_other_than(source), v3.tags[i]);
            let k = choose|k: int| 0 <= k < w.tags.len() && w.tags[k] == v3.tags[i];
        }
    }
    // Parents exist.
    assert forall|k: int, p: u64|
        0 <= k < w.tags.len() && #[trigger] w.tags[k].parents.contains(p) implies w.has_tag(p) by {
        let i = choose|i: int| 0 <= i < n && v3.tags[i] == #[trigger] w.tags[k] && w.tags[k].id != source;
        assert(v1.tags[i].parents.contains(p));
        if added_edge(e, v.tags[i].id, p) {
            if p != into {
                assert(src.parents.contains(p));
                assert(v.has_tag(p));
            }
        } else {
            assert(v.tags[i].parents.contains(p));
            assert(v.has_tag(p));
            if p == source {
                assert(child_of(source)(v.tags[i]));
                lemma_filter_contains_iff(v.tags, child_of(source), v.tags[i]);
                let j = choose|j: int| 0 <= j < cs.len() && cs[j] == v.tags[i];
                assert(dropped_edge(e, cs[j].id, source));
            }
        }
    }
    // No cycle: the edges are those the merge checked.
    let wt = without_tag(v1, source);
    assert forall|x: u64, y: u64| #[trigger] parent_edge(w, x, y) implies parent_edge(wt, x, y) by {
        let k = choose|k: int| 0 <= k < w.tags.len() && w.tags[k].id == x && w.tags[k].parents.contains(y);
        let i = choose|i: int| 0 <= i < n && v3.tags[i] == #[trigger] w.tags[k] && w.tags[k].id != source;
        lemma_filter_contains_iff(v1.tags, tag_other_than(source), v1.tags[i]);
        let j = choose|j: int| 0 <= j < wt.tags.len() && wt.tags[j] == v1.tags[i];
        assert(wt.tags[j].id == x && wt.tags[j].parents.contains(y));
    }
    assert forall|t: u64| #[trigger] w.has_tag(t) implies wt.has_tag(t) by {
        let i = choose|i: int| 0 <= i < n && v.tags[i].id == t;
        assert(v1.tags[i].id == t);
        lemma_filter_contains_iff(v1.tags, tag_other_than(source), v1.tags[i]);
        let j = choose|j: int| 0 <= j < wt.tags.len() && wt.tags[j] == v1.tags[i];
    }
    lemma_fewer_edges(wt, w);
    // Labels: what a tag of w owns, its own tag or the source owned in v.
    assert forall|i: int, l: Seq<char>|
        0 <= i < n && #[trigger] owned_by(v3.tags[i], l) implies owned_by(v.tags[i], l) || (i == ii
        && owned_by(src, l)) by {
        if !owned_by(v.tags[i], l) {
            assert(v3.tags[i].aliases.contains(l));
            assert(v1.tags[i].aliases.contains(l) || added_alias(a, v.tags[i].id, l));
            if added_alias(a, v.tags[i].id, l) {
                lemma_tag_unique(v.tags, i, ii);
                assert(ls.contains(l));
                let j = choose|j: int| 0 <= j < ls.len() && ls[j] == l;
                if j > 0 {
                    assert(src.aliases[j - 1] == l);
                }
            }
        }
    }
    assert forall|x: int, y: int, l: Seq<char>|
        0 <= x < y < w.tags.len() && #[trigger] owned_by(w.tags[x], l) implies !#[trigger] owned_by(
        w.tags[y],
        l,
    ) by {
        let i = choose|i: int| 0 <= i < n && v3.tags[i] == #[trigger] w.tags[x] && w.tags[x].id != source;
        let j = choose|j: int| 0 <= j < n && v3.tags[j] == #[trigger] w.tags[y] && w.tags[y].id != source;
        assert(tag_lt()(w.tags[x], w.tags[y]));
        assert(i != j && i != is && j != is);
        if owned_by(w.tags[y], l) {
            assert(owned_by(v3.tags[i], l) && owned_by(v3.tags[j], l));
            if owned_by(v.tags[i], l) {
                if owned_by(v.tags[j], l) {
                    lemma_one_owner(v, i, j, l);
                } else {
                    lemma_one_owner(v, i, is, l);
                }
            } else {
                if owned_by(v.tags[j], l) {
                    lemma_one_owner(v, j, is, l);
                }
            }
        }
    }
    assert forall|k: int| 0 <= k < w.tags.len() implies !(#[trigger] w.tags[k]).aliases.contains(
        w.tags[k].label,
    ) by {
        let i = choose|i: int| 0 <= i < n && v3.tags[i] == #[trigger] w.tags[k] && w.tags[k].id != source;
        let l = v.tags[i].label;
        if v3.tags[i].aliases.contains(l) {
            assert(!v.tags[i].aliases.contains(l));
            assert(added_alias(a, v.tags[i].id, l));
            lemma_tag_unique(v.tags, i, ii);
        }
    }
    // Bindings: none is left on the source.
    assert forall|j: int| 0 <= j < w.bindings.len() implies w.has_tag(#[trigger] w.bindings[j].tag) by {
        let bb = w.bindings[j];
        assert(v3.bindings.contains(bb));
        if !tagged(b, bb) {
            assert(v.bindings.contains(bb));
            let k = choose|k: int| 0 <= k < v.bindings.len() && v.bindings[k] == bb;
            assert(v.has_tag(v.bindings[k].tag));
            if bb.tag == source {
                lemma_filter_contains_iff(v.bindings, bound_to(source), bb);
                let q = choose|q: int| 0 <= q < ms.len() && ms[q] == bb;
                assert(untagged(b, ms[q]));
            }
        }
    }
    assert forall|k: int| 0 <= k < w.tags.len() implies (#[trigger] w.tags[k]).id < w.next_tag_id by {
        let i = choose|i: int| 0 <= i < n && v3.tags[i] == #[trigger] w.tags[k] && w.tags[k].id != source;
        assert(v.tags[i].id < v.next_tag_id);
    }
}


/// Every action `apply` accepts keeps a valid state valid.
pub proof fn lemma_apply_keeps_valid(v: FolkView, actor: Seq<char>, a: ActionView)
    requires
        v.wf(),
        valid(v),
        within_limits(v, a),
        apply_spec(v, actor, a) is Ok,
        fold_events(v, apply_spec(v, actor, a)->Ok_0).wf(),
    ensures
        valid(fold_events(v, apply_spec(v, actor, a)->Ok_0)),
{
    match a {
        ActionView::DefineTag { label, parents } => lemma_define_valid(v, actor, label, parents),
        ActionView::RenameTag { tag, label } => lemma_rename_valid(v, actor, tag, label),
        ActionView::AddAlias { tag, alias } => lemma_add_alias_valid(v, actor, tag, alias),
        ActionView::RemoveAlias { tag, alias } => lemma_remove_alias_valid(v, actor, tag, alias),
        ActionView::AddParent { child, parent } => lemma_add_parent_valid(v, actor, child, parent),
        ActionView::RemoveParent { child, parent } => lemma_remove_parent_valid(v, actor, child, parent),
        ActionView::MergeTags { source, into } => lemma_merge_valid(v, actor, source, into),
        ActionView::RetireTag(tag) => lemma_retire_valid(v, actor, tag),
        ActionView::Tag { item, tag, visibility } => lemma_tag_valid(v, actor, item, tag, visibility),
        ActionView::Untag { item, tag, tagger } => lemma_untag_valid(v, actor, item, tag, tagger),
    }
}

} // verus!
