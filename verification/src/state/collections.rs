//! Sorted vectors: the exec side of the kernel's sets and maps.

use vstd::prelude::*;

use crate::ids::{ActorId, ItemId, TagId};
use crate::sorted::{
    lemma_filter_all, lemma_filter_remove, lemma_position_equiv, lemma_sorted_put,
    lemma_sorted_remove, other_than, sorted_by, sorted_put,
};
use crate::state::{
    actors_view, binding_lt, bindings_view, id_lt, ids_view, key_lt, key_other_than, labels_view,
    lemma_binding_lt_order, lemma_binding_unordered_same, lemma_id_lt_order, lemma_tag_lt_order,
    lemma_text_lt_order, probe, same_key, tag_lt, tag_other_than, tags_view, text_lt, Binding,
    BindingView, Tag, TagView, Visibility,
};
use crate::text::{chars_lt, lemma_chars_order, str_lt};

verus! {

// ---------------------------------------------------------------------------
// Sets of tag ids.

/// Whether the id is in the vector.
pub fn ids_contains(v: &Vec<TagId>, x: u64) -> (r: bool)
    ensures
        r == ids_view(v@).contains(x),
{
    let mut i: usize = 0;
    while i < v.len()
        invariant
            i <= v@.len(),
            forall|j: int| 0 <= j < i ==> ids_view(v@)[j] != x,
        decreases v@.len() - i,
    {
        if v[i].0 == x {
            assert(ids_view(v@)[i as int] == x);
            return true;
        }
        i = i + 1;
    }
    false
}

/// The first index whose id is not below `x`.
pub fn ids_position(v: &Vec<TagId>, x: u64) -> (i: usize)
    ensures
        i <= v@.len(),
        forall|j: int| 0 <= j < i ==> ids_view(v@)[j] < x,
        i < v@.len() ==> ids_view(v@)[i as int] >= x,
{
    let mut i: usize = 0;
    while i < v.len() && v[i].0 < x
        invariant
            i <= v@.len(),
            forall|j: int| 0 <= j < i ==> ids_view(v@)[j] < x,
        decreases v@.len() - i,
    {
        i = i + 1;
    }
    i
}

/// Adds an id to a sorted set of ids; tells whether it was new.
pub fn ids_insert(v: &mut Vec<TagId>, x: TagId) -> (added: bool)
    requires
        sorted_by(ids_view(old(v)@), id_lt()),
    ensures
        ids_view(final(v)@) == sorted_put(ids_view(old(v)@), x.0, id_lt()),
        sorted_by(ids_view(final(v)@), id_lt()),
        added == !ids_view(old(v)@).contains(x.0),
        final(v)@.len() == old(v)@.len() + (if added { 1int } else { 0int }),
{
    let ghost s = ids_view(v@);
    let i = ids_position(v, x.0);
    proof {
        lemma_id_lt_order();
        lemma_sorted_put(s, x.0, id_lt(), i as int);
    }
    if i < v.len() && v[i].0 == x.0 {
        proof {
            assert(ids_view(v@.update(i as int, x)) =~= s.update(i as int, x.0));
            assert(s.contains(x.0));
        }
        false
    } else {
        v.insert(i, x);
        proof {
            assert(ids_view(v@) =~= s.insert(i as int, x.0));
            if s.contains(x.0) {
                let j = choose|j: int| 0 <= j < s.len() && s[j] == x.0;
                lemma_position_equiv(s, id_lt(), x.0, i as int);
            }
        }
        true
    }
}

/// Removes an id from a sorted set of ids; tells whether it was there.
pub fn ids_remove(v: &mut Vec<TagId>, x: u64) -> (removed: bool)
    requires
        sorted_by(ids_view(old(v)@), id_lt()),
    ensures
        ids_view(final(v)@) == ids_view(old(v)@).filter(other_than(x)),
        sorted_by(ids_view(final(v)@), id_lt()),
        removed == ids_view(old(v)@).contains(x),
{
    let ghost s = ids_view(v@);
    let i = ids_position(v, x);
    proof {
        lemma_id_lt_order();
        lemma_position_equiv(s, id_lt(), x, i as int);
    }
    if i < v.len() && v[i].0 == x {
        v.remove(i);
        proof {
            assert(ids_view(v@) =~= s.remove(i as int));
            assert forall|j: int| 0 <= j < s.len() && j != i implies #[trigger] other_than(x)(s[j]) by {
                if s[j] == x {
                    assert(!id_lt()(s[j], x) && !id_lt()(x, s[j]));
                }
            }
            lemma_filter_remove(s, other_than(x), i as int);
            lemma_sorted_remove(s, id_lt(), i as int);
        }
        true
    } else {
        proof {
            assert forall|j: int| 0 <= j < s.len() implies #[trigger] other_than(x)(s[j]) by {
                if s[j] == x {
                    assert(!id_lt()(s[j], x) && !id_lt()(x, s[j]));
                }
            }
            lemma_filter_all(s, other_than(x));
        }
        false
    }
}

// ---------------------------------------------------------------------------
// Sets of labels.

/// Whether the label is in the vector.
pub fn labels_contains(v: &Vec<String>, x: &String) -> (r: bool)
    ensures
        r == labels_view(v@).contains(x@),
{
    let mut i: usize = 0;
    while i < v.len()
        invariant
            i <= v@.len(),
            forall|j: int| 0 <= j < i ==> labels_view(v@)[j] != x@,
        decreases v@.len() - i,
    {
        if v[i] == *x {
            assert(labels_view(v@)[i as int] == x@);
            return true;
        }
        i = i + 1;
    }
    false
}

/// The first index whose label is not before `x`.
pub fn labels_position(v: &Vec<String>, x: &String) -> (i: usize)
    ensures
        i <= v@.len(),
        forall|j: int| 0 <= j < i ==> chars_lt(#[trigger] labels_view(v@)[j], x@),
        i < v@.len() ==> !chars_lt(labels_view(v@)[i as int], x@),
{
    let mut i: usize = 0;
    while i < v.len() && str_lt(v[i].as_str(), x.as_str())
        invariant
            i <= v@.len(),
            forall|j: int| 0 <= j < i ==> chars_lt(#[trigger] labels_view(v@)[j], x@),
        decreases v@.len() - i,
    {
        i = i + 1;
    }
    i
}

/// Adds a label to a sorted set of labels; tells whether it was new.
pub fn labels_insert(v: &mut Vec<String>, x: String) -> (added: bool)
    requires
        sorted_by(labels_view(old(v)@), text_lt()),
    ensures
        labels_view(final(v)@) == sorted_put(labels_view(old(v)@), x@, text_lt()),
        sorted_by(labels_view(final(v)@), text_lt()),
        added == !labels_view(old(v)@).contains(x@),
{
    let ghost s = labels_view(v@);
    let i = labels_position(v, &x);
    proof {
        lemma_text_lt_order();
        lemma_chars_order();
        lemma_sorted_put(s, x@, text_lt(), i as int);
        lemma_position_equiv(s, text_lt(), x@, i as int);
    }
    if i < v.len() && v[i] == x {
        proof {
            assert(s.contains(x@));
        }
        false
    } else {
        let ghost xv = x@;
        v.insert(i, x);
        proof {
            assert(labels_view(v@) =~= s.insert(i as int, xv));
            if i < s.len() {
                assert(s[i as int] != xv);
                assert(chars_lt(xv, s[i as int]));
            }
            if s.contains(xv) {
                let j = choose|j: int| 0 <= j < s.len() && s[j] == xv;
                assert(!text_lt()(s[j], xv) && !text_lt()(xv, s[j]));
            }
        }
        true
    }
}

/// Removes a label from a sorted set of labels; tells whether it was there.
pub fn labels_remove(v: &mut Vec<String>, x: &String) -> (removed: bool)
    requires
        sorted_by(labels_view(old(v)@), text_lt()),
    ensures
        labels_view(final(v)@) == labels_view(old(v)@).filter(other_than(x@)),
        sorted_by(labels_view(final(v)@), text_lt()),
        removed == labels_view(old(v)@).contains(x@),
{
    let ghost s = labels_view(v@);
    let i = labels_position(v, x);
    proof {
        lemma_text_lt_order();
        lemma_chars_order();
        lemma_position_equiv(s, text_lt(), x@, i as int);
    }
    if i < v.len() && v[i] == *x {
        v.remove(i);
        proof {
            assert(labels_view(v@) =~= s.remove(i as int));
            assert forall|j: int| 0 <= j < s.len() && j != i implies #[trigger] other_than(x@)(
                s[j],
            ) by {
                if s[j] == x@ {
                    assert(!text_lt()(s[j], x@) && !text_lt()(x@, s[j]));
                }
            }
            lemma_filter_remove(s, other_than(x@), i as int);
            lemma_sorted_remove(s, text_lt(), i as int);
        }
        true
    } else {
        proof {
            assert forall|j: int| 0 <= j < s.len() implies #[trigger] other_than(x@)(s[j]) by {
                if s[j] == x@ {
                    assert(!text_lt()(s[j], x@) && !text_lt()(x@, s[j]));
                }
            }
            lemma_filter_all(s, other_than(x@));
        }
        false
    }
}

// ---------------------------------------------------------------------------
// Tags by id.

/// Where the tag with this id is, if anywhere.
pub fn tags_find(v: &Vec<Tag>, id: u64) -> (r: Option<usize>)
    ensures
        match r {
            Some(i) => i < v@.len() && tags_view(v@)[i as int].id == id,
            None => forall|j: int| 0 <= j < v@.len() ==> #[trigger] tags_view(v@)[j].id != id,
        },
{
    let mut i: usize = 0;
    while i < v.len()
        invariant
            i <= v@.len(),
            forall|j: int| 0 <= j < i ==> #[trigger] tags_view(v@)[j].id != id,
        decreases v@.len() - i,
    {
        if v[i].id.0 == id {
            return Some(i);
        }
        i = i + 1;
    }
    None
}

/// In a list sorted by id, two tags with the same id are the same entry.
pub proof fn lemma_tag_unique(s: Seq<TagView>, i: int, j: int)
    requires
        sorted_by(s, tag_lt()),
        0 <= i < s.len(),
        0 <= j < s.len(),
        s[i].id == s[j].id,
    ensures
        i == j,
{
    if i < j {
        assert(tag_lt()(s[i], s[j]));
    } else if j < i {
        assert(tag_lt()(s[j], s[i]));
    }
}

/// Puts a tag in its place by id, replacing a tag with the same id.
pub fn tags_put(v: &mut Vec<Tag>, t: Tag)
    requires
        sorted_by(tags_view(old(v)@), tag_lt()),
    ensures
        tags_view(final(v)@) == sorted_put(tags_view(old(v)@), t@, tag_lt()),
        sorted_by(tags_view(final(v)@), tag_lt()),
        forall|j: int|
            0 <= j < final(v)@.len() ==> tags_view(final(v)@)[j] == t@ || tags_view(
                old(v)@,
            ).contains(#[trigger] tags_view(final(v)@)[j]),
{
    let ghost s = tags_view(v@);
    let ghost tv = t@;
    let mut i: usize = 0;
    while i < v.len() && v[i].id.0 < t.id.0
        invariant
            i <= v@.len(),
            s == tags_view(v@),
            tv == t@,
            forall|j: int| 0 <= j < i ==> #[trigger] tag_lt()(s[j], tv),
        decreases v@.len() - i,
    {
        i = i + 1;
    }
    proof {
        lemma_tag_lt_order();
        lemma_sorted_put(s, tv, tag_lt(), i as int);
    }
    if i < v.len() && v[i].id.0 == t.id.0 {
        v.set(i, t);
        proof {
            assert(tags_view(v@) =~= s.update(i as int, tv));
            assert forall|j: int| 0 <= j < v@.len() && j != i implies s.contains(
                #[trigger] tags_view(v@)[j],
            ) by {
                assert(tags_view(v@)[j] == s[j]);
            }
        }
    } else {
        v.insert(i, t);
        proof {
            assert(tags_view(v@) =~= s.insert(i as int, tv));
            assert forall|j: int| 0 <= j < v@.len() && j != i implies s.contains(
                #[trigger] tags_view(v@)[j],
            ) by {
                if j < i {
                    assert(tags_view(v@)[j] == s[j]);
                } else {
                    assert(tags_view(v@)[j] == s[j - 1]);
                }
            }
        }
    }
}

/// Removes the tag with this id, handing it back if there was one.
pub fn tags_remove(v: &mut Vec<Tag>, id: u64) -> (r: Option<Tag>)
    requires
        sorted_by(tags_view(old(v)@), tag_lt()),
    ensures
        tags_view(final(v)@) == tags_view(old(v)@).filter(tag_other_than(id)),
        sorted_by(tags_view(final(v)@), tag_lt()),
        forall|j: int|
            0 <= j < final(v)@.len() ==> tags_view(old(v)@).contains(
                #[trigger] tags_view(final(v)@)[j],
            ),
        match r {
            Some(t) => exists|i: int|
                0 <= i < old(v)@.len() && tags_view(old(v)@)[i] == t@ && t@.id == id,
            None => forall|j: int|
                0 <= j < old(v)@.len() ==> #[trigger] tags_view(old(v)@)[j].id != id,
        },
{
    let ghost s = tags_view(v@);
    match tags_find(v, id) {
        Some(i) => {
            let t = v.remove(i);
            proof {
                assert(tags_view(v@) =~= s.remove(i as int));
                assert forall|j: int| 0 <= j < s.len() && j != i implies #[trigger] tag_other_than(
                    id,
                )(s[j]) by {
                    if s[j].id == id {
                        lemma_tag_unique(s, i as int, j);
                    }
                }
                lemma_filter_remove(s, tag_other_than(id), i as int);
                lemma_sorted_remove(s, tag_lt(), i as int);
                assert(s[i as int] == t@);
                assert forall|j: int| 0 <= j < v@.len() implies s.contains(
                    #[trigger] tags_view(v@)[j],
                ) by {
                    if j < i {
                        assert(tags_view(v@)[j] == s[j]);
                    } else {
                        assert(tags_view(v@)[j] == s[j + 1]);
                    }
                }
            }
            Some(t)
        },
        None => {
            proof {
                assert forall|j: int| 0 <= j < s.len() implies #[trigger] tag_other_than(id)(
                    s[j],
                ) by {
                    assert(s[j].id != id);
                }
                lemma_filter_all(s, tag_other_than(id));
                assert forall|j: int| 0 <= j < v@.len() implies s.contains(
                    #[trigger] tags_view(v@)[j],
                ) by {
                    assert(tags_view(v@)[j] == s[j]);
                }
            }
            None
        },
    }
}

// ---------------------------------------------------------------------------
// Bindings by identity.

/// Whether binding `b`'s identity comes before `(item, tag, tagger)`.
pub fn key_before(b: &Binding, item: &ItemId, tag: TagId, tagger: &ActorId) -> (r: bool)
    ensures
        r == key_lt(b@, probe(item@, tag.0, tagger@)),
{
    if str_lt(b.item.as_str(), item.as_str()) {
        true
    } else if !b.item.same(item) {
        false
    } else if b.tag.0 < tag.0 {
        true
    } else if b.tag.0 != tag.0 {
        false
    } else {
        str_lt(b.tagger.as_str(), tagger.as_str())
    }
}

/// The first index whose binding's identity is not before `(item, tag, tagger)`.
pub fn bindings_position(v: &Vec<Binding>, item: &ItemId, tag: TagId, tagger: &ActorId) -> (i: usize)
    ensures
        i <= v@.len(),
        forall|j: int|
            0 <= j < i ==> #[trigger] binding_lt()(
                bindings_view(v@)[j],
                probe(item@, tag.0, tagger@),
            ),
        i < v@.len() ==> !binding_lt()(
            bindings_view(v@)[i as int],
            probe(item@, tag.0, tagger@),
        ),
{
    let mut i: usize = 0;
    while i < v.len() && key_before(&v[i], item, tag, tagger)
        invariant
            i <= v@.len(),
            forall|j: int|
                0 <= j < i ==> #[trigger] binding_lt()(
                    bindings_view(v@)[j],
                    probe(item@, tag.0, tagger@),
                ),
        decreases v@.len() - i,
    {
        i = i + 1;
    }
    i
}

/// Where the binding with identity `(item, tag, tagger)` is, if anywhere.
pub fn bindings_find(v: &Vec<Binding>, item: &ItemId, tag: TagId, tagger: &ActorId) -> (r: Option<usize>)
    requires
        sorted_by(bindings_view(v@), binding_lt()),
    ensures
        match r {
            Some(i) => i < v@.len() && same_key(
                bindings_view(v@)[i as int],
                probe(item@, tag.0, tagger@),
            ),
            None => forall|j: int|
                0 <= j < v@.len() ==> !same_key(
                    #[trigger] bindings_view(v@)[j],
                    probe(item@, tag.0, tagger@),
                ),
        },
{
    let ghost s = bindings_view(v@);
    let ghost k = probe(item@, tag.0, tagger@);
    let i = bindings_position(v, item, tag, tagger);
    proof {
        lemma_binding_lt_order();
        lemma_position_equiv(s, binding_lt(), k, i as int);
        lemma_chars_order();
    }
    if i < v.len() && v[i].item.same(item) && v[i].tag.0 == tag.0 && v[i].tagger.same(tagger) {
        Some(i)
    } else {
        proof {
            assert forall|j: int| 0 <= j < v@.len() implies !same_key(
                #[trigger] bindings_view(v@)[j],
                k,
            ) by {
                if same_key(s[j], k) {
                    assert(!binding_lt()(s[j], k) && !binding_lt()(k, s[j]));
                }
            }
        }
        None
    }
}

/// Puts a binding in its place by identity, replacing one with the same
/// identity; hands back the visibility it replaced, if any.
pub fn bindings_put(v: &mut Vec<Binding>, b: Binding) -> (prev: Option<Visibility>)
    requires
        sorted_by(bindings_view(old(v)@), binding_lt()),
    ensures
        bindings_view(final(v)@) == sorted_put(bindings_view(old(v)@), b@, binding_lt()),
        sorted_by(bindings_view(final(v)@), binding_lt()),
        match prev {
            Some(p) => exists|j: int|
                0 <= j < old(v)@.len() && same_key(#[trigger] bindings_view(old(v)@)[j], b@)
                    && bindings_view(old(v)@)[j].visibility == p,
            None => forall|j: int|
                0 <= j < old(v)@.len() ==> !same_key(#[trigger] bindings_view(old(v)@)[j], b@),
        },
{
    let ghost s = bindings_view(v@);
    let ghost bv = b@;
    let i = bindings_position(v, &b.item, b.tag, &b.tagger);
    proof {
        lemma_binding_lt_order();
        assert(probe(bv.item, bv.tag, bv.tagger) =~= probe(b.item@, b.tag.0, b.tagger@));
        assert forall|x: BindingView| #[trigger] binding_lt()(x, bv) == binding_lt()(
            x,
            probe(bv.item, bv.tag, bv.tagger),
        ) && binding_lt()(bv, x) == binding_lt()(probe(bv.item, bv.tag, bv.tagger), x) by {}
        lemma_sorted_put(s, bv, binding_lt(), i as int);
        lemma_position_equiv(s, binding_lt(), bv, i as int);
        lemma_chars_order();
    }
    if i < v.len() && v[i].item.same(&b.item) && v[i].tag.0 == b.tag.0 && v[i].tagger.same(
        &b.tagger,
    ) {
        let p = v[i].visibility;
        v.set(i, b);
        proof {
            assert(bindings_view(v@) =~= s.update(i as int, bv));
        }
        Some(p)
    } else {
        v.insert(i, b);
        proof {
            assert(bindings_view(v@) =~= s.insert(i as int, bv));
            if i < s.len() {
                assert(!same_key(s[i as int], bv));
                if !binding_lt()(bv, s[i as int]) {
                    lemma_binding_unordered_same(bv, s[i as int]);
                }
            }
            assert forall|j: int| 0 <= j < s.len() implies !same_key(#[trigger] s[j], bv) by {
                if same_key(s[j], bv) {
                    assert(!binding_lt()(s[j], bv) && !binding_lt()(bv, s[j]));
                }
            }
        }
        None
    }
}

/// Removes the binding at `i`, which has identity `k`: the same as dropping
/// every binding with that identity.
pub fn bindings_remove_at(v: &mut Vec<Binding>, i: usize, Ghost(k): Ghost<BindingView>) -> (b: Binding)
    requires
        sorted_by(bindings_view(old(v)@), binding_lt()),
        i < old(v)@.len(),
        same_key(bindings_view(old(v)@)[i as int], k),
    ensures
        bindings_view(final(v)@) == bindings_view(old(v)@).filter(key_other_than(k)),
        sorted_by(bindings_view(final(v)@), binding_lt()),
        b == old(v)@[i as int],
{
    let ghost s = bindings_view(v@);
    let b = v.remove(i);
    proof {
        lemma_binding_lt_order();
        assert(bindings_view(v@) =~= s.remove(i as int));
        assert forall|j: int| 0 <= j < s.len() && j != i implies #[trigger] key_other_than(k)(
            s[j],
        ) by {
            if same_key(s[j], k) {
                if j < i {
                    assert(binding_lt()(s[j], s[i as int]));
                    lemma_chars_order();
                } else {
                    assert(binding_lt()(s[i as int], s[j]));
                    lemma_chars_order();
                }
            }
        }
        lemma_filter_remove(s, key_other_than(k), i as int);
        lemma_sorted_remove(s, binding_lt(), i as int);
    }
    b
}

// ---------------------------------------------------------------------------
// Sets of actors.

/// Whether the actor is in the vector.
pub fn actors_contains(v: &Vec<ActorId>, x: &ActorId) -> (r: bool)
    ensures
        r == actors_view(v@).contains(x@),
{
    let mut i: usize = 0;
    while i < v.len()
        invariant
            i <= v@.len(),
            forall|j: int| 0 <= j < i ==> actors_view(v@)[j] != x@,
        decreases v@.len() - i,
    {
        if v[i].same(x) {
            assert(actors_view(v@)[i as int] == x@);
            return true;
        }
        i = i + 1;
    }
    false
}

/// Adds an actor to a sorted set of actors.
pub fn actors_insert(v: &mut Vec<ActorId>, x: ActorId)
    requires
        sorted_by(actors_view(old(v)@), text_lt()),
    ensures
        actors_view(final(v)@) == sorted_put(actors_view(old(v)@), x@, text_lt()),
        sorted_by(actors_view(final(v)@), text_lt()),
{
    let ghost s = actors_view(v@);
    let ghost xv = x@;
    let mut i: usize = 0;
    while i < v.len() && str_lt(v[i].as_str(), x.as_str())
        invariant
            i <= v@.len(),
            s == actors_view(v@),
            xv == x@,
            forall|j: int| 0 <= j < i ==> chars_lt(#[trigger] s[j], xv),
        decreases v@.len() - i,
    {
        i = i + 1;
    }
    proof {
        lemma_text_lt_order();
        lemma_chars_order();
        lemma_sorted_put(s, xv, text_lt(), i as int);
    }
    if i < v.len() && v[i].same(&x) {
        v.set(i, x);
        proof {
            assert(actors_view(v@) =~= s.update(i as int, xv));
        }
    } else {
        v.insert(i, x);
        proof {
            assert(actors_view(v@) =~= s.insert(i as int, xv));
            if i < s.len() {
                assert(s[i as int] != xv);
            }
        }
    }
}

} // verus!
