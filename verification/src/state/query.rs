//! Pure reads. Every read takes an actor and is therefore already a
//! projection: it sees public bindings plus the actor's own private ones.

use vstd::prelude::*;

use super::collections::{actors_contains, ids_contains, ids_insert};
use super::graph::{is_walk, lemma_sorted_ids_distinct, reaches, step};
use super::read::{first_where, is_first, lemma_first_where_found, lemma_first_where_none};
use super::{
    actors_view, bindings_view, id_lt, ids_view, lemma_id_lt_order, lemma_text_lt_order,
    tags_view, text_lt, Binding, BindingView, FolkView, Folksonomy, Tag, Visibility,
};
use crate::error::FolkError;
use crate::ids::{ActorId, ItemId, TagId};
use crate::sorted::{
    lemma_filter_contains_iff, lemma_filter_sorted, lemma_filter_sub, lemma_sorted_put,
    lemma_sorted_put_members, set_of, sorted_by, sorted_put,
    strict_weak,
};
use crate::text::{chars_lt, lemma_chars_order, str_lt};
use vstd::seq_lib::lemma_flatten_concat;

verus! {

/// A reference to a tag in a selection. `transitive` means the tag or any of
/// its descendants; otherwise exactly this tag.
#[derive(Debug, Clone, Copy, PartialEq, Eq, Structural)]
pub struct TagRef {
    /// The tag.
    pub tag: TagId,
    /// Include descendants.
    pub transitive: bool,
}

impl TagRef {
    /// Exactly this tag.
    pub fn exact(tag: TagId) -> (r: TagRef)
        ensures
            r == (TagRef { tag, transitive: false }),
    {
        TagRef { tag, transitive: false }
    }

    /// This tag or any descendant.
    pub fn under(tag: TagId) -> (r: TagRef)
        ensures
            r == (TagRef { tag, transitive: true }),
    {
        TagRef { tag, transitive: true }
    }
}

/// Disjunctive normal form, flattened. An item matches if it satisfies
/// *every* ref in *some* clause of `any_of` and *no* ref in `none_of`. An
/// empty `any_of` matches every item with at least one visible binding.
/// `taggers`, when present, restricts the bindings considered to those
/// taggers before evaluation.
#[derive(Debug, PartialEq, Eq)]
pub struct Selection {
    /// Clauses; each is a conjunction.
    pub any_of: Vec<Vec<TagRef>>,
    /// Exclusions.
    pub none_of: Vec<TagRef>,
    /// Restrict to bindings by these taggers.
    pub taggers: Option<Vec<ActorId>>,
}

/// What a selection holds, as values.
pub struct SelectionView {
    pub any_of: Seq<Seq<TagRef>>,
    pub none_of: Seq<TagRef>,
    pub taggers: Option<Seq<Seq<char>>>,
}

/// The characters of each tagger, when the list is present.
pub open spec fn taggers_view(t: Option<Vec<ActorId>>) -> Option<Seq<Seq<char>>> {
    match t {
        Some(ts) => Some(actors_view(ts@)),
        None => None,
    }
}

impl View for Selection {
    type V = SelectionView;

    open spec fn view(&self) -> SelectionView {
        SelectionView {
            any_of: self.any_of@.map_values(|c: Vec<TagRef>| c@),
            none_of: self.none_of@,
            taggers: taggers_view(self.taggers),
        }
    }
}

impl Clone for Selection {
    fn clone(&self) -> (r: Self)
        ensures
            r@ == self@,
    {
        let mut any_of: Vec<Vec<TagRef>> = Vec::new();
        let mut i: usize = 0;
        while i < self.any_of.len()
            invariant
                i <= self.any_of@.len(),
                any_of@.len() == i,
                forall|k: int| 0 <= k < i ==> (#[trigger] any_of@[k])@ == self.any_of@[k]@,
            decreases self.any_of@.len() - i,
        {
            let c = self.any_of[i].clone();
            proof {
                assert(c@ =~= self.any_of@[i as int]@);
            }
            any_of.push(c);
            i = i + 1;
        }
        let none_of = self.none_of.clone();
        let taggers = match &self.taggers {
            Some(ts) => {
                let c = ts.clone();
                proof {
                    assert(actors_view(c@) =~= actors_view(ts@));
                }
                Some(c)
            },
            None => None,
        };
        let r = Selection { any_of, none_of, taggers };
        proof {
            assert(r@.any_of =~= self@.any_of);
            assert(r@.none_of =~= self@.none_of);
        }
        r
    }
}

impl Default for Selection {
    fn default() -> (r: Selection)
        ensures
            r@.any_of.len() == 0,
            r@.none_of.len() == 0,
            r@.taggers is None,
    {
        Selection { any_of: Vec::new(), none_of: Vec::new(), taggers: None }
    }
}

impl Selection {
    /// Everything with at least one visible binding.
    pub fn everything() -> (r: Selection)
        ensures
            r@.any_of.len() == 0,
            r@.none_of.len() == 0,
            r@.taggers is None,
    {
        Selection::default()
    }

    /// A single-clause selection: all of these refs.
    pub fn all_of(refs: Vec<TagRef>) -> (r: Selection)
        ensures
            r@.any_of == seq![refs@],
            r@.none_of.len() == 0,
            r@.taggers is None,
    {
        let mut any_of: Vec<Vec<TagRef>> = Vec::new();
        let ghost clause = refs@;
        any_of.push(refs);
        let r = Selection { any_of, none_of: Vec::new(), taggers: None };
        proof {
            assert(r@.any_of =~= seq![clause]);
        }
        r
    }

    /// Add an exclusion.
    pub fn but_not(self, r: TagRef) -> (s: Selection)
        ensures
            s@.any_of == self@.any_of,
            s@.none_of == self@.none_of.push(r),
            s@.taggers == self@.taggers,
    {
        let mut s = self;
        s.none_of.push(r);
        s
    }

    /// Restrict to these taggers.
    pub fn by_taggers(self, taggers: Vec<ActorId>) -> (s: Selection)
        ensures
            s@.any_of == self@.any_of,
            s@.none_of == self@.none_of,
            s@.taggers == Some(actors_view(taggers@)),
    {
        let mut s = self;
        s.taggers = Some(taggers);
        s
    }
}

/// How many distinct matching items carry a tag directly.
#[derive(Debug, Clone, Copy, PartialEq, Eq, Structural)]
pub struct TagCount {
    /// The tag.
    pub tag: TagId,
    /// Distinct items.
    pub count: u32,
}

/// What one actor is entitled to see: the whole vocabulary, public bindings,
/// and its own private bindings. Deliberately a different type from
/// [`Folksonomy`] so a projection cannot be mistaken for state.
#[derive(Debug, PartialEq, Eq)]
pub struct FolksonomyView {
    /// The vocabulary, sorted by id.
    pub tags: Vec<Tag>,
    /// Visible bindings, sorted by `(item, tag, tagger)`.
    pub bindings: Vec<Binding>,
}

impl Clone for FolksonomyView {
    fn clone(&self) -> (r: Self)
        ensures
            tags_view(r.tags@) == tags_view(self.tags@),
            bindings_view(r.bindings@) == bindings_view(self.bindings@),
    {
        let tags = self.tags.clone();
        let bindings = self.bindings.clone();
        proof {
            assert(tags_view(tags@) =~= tags_view(self.tags@));
            assert(bindings_view(bindings@) =~= bindings_view(self.bindings@));
        }
        FolksonomyView { tags, bindings }
    }
}

// ---------------------------------------------------------------------------
// What a read sees.

/// The visibility rule, in one place: public, or the actor's own.
pub open spec fn visible(actor: Seq<char>, b: BindingView) -> bool {
    b.visibility == Visibility::Public || b.tagger == actor
}

/// The bindings an actor may see.
pub open spec fn visible_to(actor: Seq<char>) -> spec_fn(BindingView) -> bool {
    |b: BindingView| visible(actor, b)
}

/// The bindings on one item that an actor may see.
pub open spec fn visible_on(actor: Seq<char>, item: Seq<char>) -> spec_fn(BindingView) -> bool {
    |b: BindingView| b.item == item && visible(actor, b)
}

/// A binding a selection evaluates: visible to the actor, and by one of the
/// taggers when the selection names them.
pub open spec fn counted(actor: Seq<char>, taggers: Option<Seq<Seq<char>>>, b: BindingView) -> bool {
    &&& visible(actor, b)
    &&& match taggers {
        Some(ts) => ts.contains(b.tagger),
        None => true,
    }
}

/// The bindings a selection evaluates.
pub open spec fn counted_in(actor: Seq<char>, taggers: Option<Seq<Seq<char>>>) -> spec_fn(
    BindingView,
) -> bool {
    |b: BindingView| counted(actor, taggers, b)
}

/// The items of some bindings, in order.
pub open spec fn items_of(s: Seq<BindingView>) -> Seq<Seq<char>> {
    s.map_values(|b: BindingView| b.item)
}

/// The characters of each item id.
pub open spec fn items_view(s: Seq<ItemId>) -> Seq<Seq<char>> {
    s.map_values(|x: ItemId| x@)
}

/// The items that carry at least one evaluated binding, sorted bytewise and
/// distinct.
pub open spec fn candidates(v: FolkView, actor: Seq<char>, taggers: Option<Seq<Seq<char>>>) -> Seq<
    Seq<char>,
> {
    set_of(items_of(v.bindings.filter(counted_in(actor, taggers))), text_lt())
}

/// An evaluated binding puts the tag directly on the item.
pub open spec fn carries(
    v: FolkView,
    actor: Seq<char>,
    taggers: Option<Seq<Seq<char>>>,
    x: Seq<char>,
    t: u64,
) -> bool {
    exists|i: int|
        0 <= i < v.bindings.len() && #[trigger] counted(actor, taggers, v.bindings[i])
            && v.bindings[i].item == x && v.bindings[i].tag == t
}

/// The tags a ref stands for: itself, plus its descendants when transitive.
pub open spec fn covers(v: FolkView, r: TagRef, t: u64) -> bool {
    t == r.tag.0 || (r.transitive && reaches(v, false, r.tag.0, t))
}

/// The item carries a tag the ref stands for.
pub open spec fn hits(
    v: FolkView,
    actor: Seq<char>,
    taggers: Option<Seq<Seq<char>>>,
    x: Seq<char>,
    r: TagRef,
) -> bool {
    exists|t: u64| #[trigger] carries(v, actor, taggers, x, t) && covers(v, r, t)
}

/// The item satisfies every ref of some clause (or there are no clauses),
/// and no exclusion.
pub open spec fn selects(v: FolkView, actor: Seq<char>, sel: SelectionView, x: Seq<char>) -> bool {
    &&& (sel.any_of.len() == 0 || exists|c: int|
        0 <= c < sel.any_of.len() && #[trigger] clause_holds(v, actor, sel.taggers, x, sel.any_of[c]))
    &&& forall|k: int|
        0 <= k < sel.none_of.len() ==> !hits(v, actor, sel.taggers, x, #[trigger] sel.none_of[k])
}

/// The item satisfies every ref of the clause.
pub open spec fn clause_holds(
    v: FolkView,
    actor: Seq<char>,
    taggers: Option<Seq<Seq<char>>>,
    x: Seq<char>,
    clause: Seq<TagRef>,
) -> bool {
    forall|k: int| 0 <= k < clause.len() ==> hits(v, actor, taggers, x, #[trigger] clause[k])
}

/// The items a selection picks.
pub open spec fn selected(v: FolkView, actor: Seq<char>, sel: SelectionView) -> spec_fn(
    Seq<char>,
) -> bool {
    |x: Seq<char>| selects(v, actor, sel, x)
}

/// The items matching a selection as seen by an actor, sorted bytewise and
/// distinct.
pub open spec fn matched(v: FolkView, actor: Seq<char>, sel: SelectionView) -> Seq<Seq<char>> {
    candidates(v, actor, sel.taggers).filter(selected(v, actor, sel))
}

/// Every ref of a selection, in the order they are checked: the clauses in
/// turn, then the exclusions.
pub open spec fn all_refs(sel: SelectionView) -> Seq<TagRef> {
    sel.any_of.flatten() + sel.none_of
}

/// Refs to tags that do not exist.
pub open spec fn unknown_in(v: FolkView) -> spec_fn(TagRef) -> bool {
    |r: TagRef| !v.has_tag(r.tag.0)
}

/// Whether the item carries the tag directly.
pub open spec fn carrying(
    v: FolkView,
    actor: Seq<char>,
    taggers: Option<Seq<Seq<char>>>,
    t: u64,
) -> spec_fn(Seq<char>) -> bool {
    |x: Seq<char>| carries(v, actor, taggers, x, t)
}

/// How many distinct matching items carry the tag directly.
pub open spec fn tally(v: FolkView, actor: Seq<char>, sel: SelectionView, t: u64) -> nat {
    matched(v, actor, sel).filter(carrying(v, actor, sel.taggers, t)).len()
}

/// Facets come by count, highest first, then by tag id.
pub open spec fn facet_lt() -> spec_fn(TagCount, TagCount) -> bool {
    |a: TagCount, b: TagCount| a.count > b.count || (a.count == b.count && a.tag.0 < b.tag.0)
}

// ---------------------------------------------------------------------------
// Projections.

/// Whether the actor may see the binding.
fn is_visible(actor: &ActorId, b: &Binding) -> (r: bool)
    ensures
        r == visible(actor@, b@),
{
    b.visibility == Visibility::Public || b.tagger.same(actor)
}

impl Folksonomy {
    /// Hidden-information projection: the whole vocabulary, and the bindings
    /// the actor may see.
    pub fn view_for(&self, actor: &ActorId) -> (r: FolksonomyView)
        ensures
            tags_view(r.tags@) == self@.tags,
            bindings_view(r.bindings@) == self@.bindings.filter(visible_to(actor@)),
    {
        let ghost v = self@;
        let mut tags: Vec<Tag> = Vec::new();
        let mut i: usize = 0;
        while i < self.tags.len()
            invariant
                v == self@,
                i <= self.tags@.len(),
                tags_view(tags@) == v.tags.take(i as int),
            decreases self.tags@.len() - i,
        {
            let t = self.tags[i].clone();
            let ghost before = tags_view(tags@);
            tags.push(t);
            proof {
                assert(tags_view(tags@) =~= before.push(t@));
                assert(v.tags.take(i + 1) =~= v.tags.take(i as int).push(v.tags[i as int]));
            }
            i = i + 1;
        }
        proof {
            assert(v.tags.take(v.tags.len() as int) =~= v.tags);
        }
        let mut bindings: Vec<Binding> = Vec::new();
        let mut j: usize = 0;
        proof {
            assert(v.bindings.take(0) =~= Seq::<BindingView>::empty());
            assert(bindings_view(bindings@) =~= Seq::<BindingView>::empty());
            reveal(Seq::filter);
        }
        while j < self.bindings.len()
            invariant
                v == self@,
                j <= self.bindings@.len(),
                bindings_view(bindings@) == v.bindings.take(j as int).filter(visible_to(actor@)),
            decreases self.bindings@.len() - j,
        {
            proof {
                assert(v.bindings.take(j + 1) =~= v.bindings.take(j as int).push(v.bindings[j as int]));
                v.bindings.take(j as int).lemma_filter_push(v.bindings[j as int], visible_to(actor@));
            }
            if is_visible(actor, &self.bindings[j]) {
                let b = self.bindings[j].clone();
                let ghost before = bindings_view(bindings@);
                bindings.push(b);
                proof {
                    assert(bindings_view(bindings@) =~= before.push(b@));
                }
            }
            j = j + 1;
        }
        proof {
            assert(v.bindings.take(v.bindings.len() as int) =~= v.bindings);
        }
        FolksonomyView { tags, bindings }
    }

    /// Bindings on one item visible to `actor`, sorted by `(tag, tagger)`.
    pub fn tags_of(&self, actor: &ActorId, item: &ItemId) -> (r: Vec<Binding>)
        ensures
            bindings_view(r@) == self@.bindings.filter(visible_on(actor@, item@)),
    {
        let ghost v = self@;
        let mut out: Vec<Binding> = Vec::new();
        let mut j: usize = 0;
        proof {
            assert(v.bindings.take(0) =~= Seq::<BindingView>::empty());
            assert(bindings_view(out@) =~= Seq::<BindingView>::empty());
            reveal(Seq::filter);
        }
        while j < self.bindings.len()
            invariant
                v == self@,
                j <= self.bindings@.len(),
                bindings_view(out@) == v.bindings.take(j as int).filter(visible_on(actor@, item@)),
            decreases self.bindings@.len() - j,
        {
            proof {
                assert(v.bindings.take(j + 1) =~= v.bindings.take(j as int).push(v.bindings[j as int]));
                v.bindings.take(j as int).lemma_filter_push(
                    v.bindings[j as int],
                    visible_on(actor@, item@),
                );
            }
            if self.bindings[j].item.same(item) && is_visible(actor, &self.bindings[j]) {
                let b = self.bindings[j].clone();
                let ghost before = bindings_view(out@);
                out.push(b);
                proof {
                    assert(bindings_view(out@) =~= before.push(b@));
                }
            }
            j = j + 1;
        }
        proof {
            assert(v.bindings.take(v.bindings.len() as int) =~= v.bindings);
        }
        out
    }
}


// ---------------------------------------------------------------------------
// Evaluating a selection.

/// Whether a selection evaluates the binding.
fn is_counted(actor: &ActorId, taggers: &Option<Vec<ActorId>>, b: &Binding) -> (r: bool)
    ensures
        r == counted(actor@, taggers_view(*taggers), b@),
{
    if !is_visible(actor, b) {
        return false;
    }
    match taggers {
        Some(ts) => actors_contains(ts, &b.tagger),
        None => true,
    }
}

/// Adds an item to a sorted set of items; tells whether it was new.
fn items_insert(v: &mut Vec<ItemId>, x: ItemId) -> (added: bool)
    requires
        sorted_by(items_view(old(v)@), text_lt()),
    ensures
        items_view(final(v)@) == sorted_put(items_view(old(v)@), x@, text_lt()),
        sorted_by(items_view(final(v)@), text_lt()),
        final(v)@.len() == old(v)@.len() + (if added { 1int } else { 0int }),
{
    let ghost s = items_view(v@);
    let ghost xv = x@;
    let mut i: usize = 0;
    while i < v.len() && str_lt(v[i].as_str(), x.as_str())
        invariant
            i <= v@.len(),
            s == items_view(v@),
            xv == x@,
            forall|j: int| 0 <= j < i ==> chars_lt(#[trigger] s[j], xv),
        decreases v@.len() - i,
    {
        i = i + 1;
    }
    proof {
        lemma_text_lt_order();
        lemma_chars_order();
        lemma_sorted_put(s, xv, text_lt(), i as int);
    }
    if i < v.len() && v[i].same(&x) {
        v.set(i, x);
        proof {
            assert(items_view(v@) =~= s.update(i as int, xv));
        }
        false
    } else {
        v.insert(i, x);
        proof {
            assert(items_view(v@) =~= s.insert(i as int, xv));
            if i < s.len() {
                assert(s[i as int] != xv);
            }
        }
        true
    }
}

/// Whether two id sets share an element.
pub open spec fn meets(a: Seq<u64>, b: Seq<u64>) -> bool {
    exists|t: u64| #[trigger] a.contains(t) && b.contains(t)
}

/// Whether two id vectors share an element.
fn ids_meet(a: &Vec<TagId>, b: &Vec<TagId>) -> (r: bool)
    ensures
        r == meets(ids_view(a@), ids_view(b@)),
{
    let mut i: usize = 0;
    while i < a.len()
        invariant
            i <= a@.len(),
            forall|j: int| 0 <= j < i ==> !ids_view(b@).contains(#[trigger] ids_view(a@)[j]),
        decreases a@.len() - i,
    {
        if ids_contains(b, a[i].0) {
            assert(ids_view(a@).contains(ids_view(a@)[i as int]));
            return true;
        }
        i = i + 1;
    }
    proof {
        assert forall|t: u64| #[trigger] ids_view(a@).contains(t) implies !ids_view(b@).contains(t) by {
            let j = choose|j: int| 0 <= j < ids_view(a@).len() && ids_view(a@)[j] == t;
        }
    }
    false
}

/// The id set, as the tags an item carries, decides whether the item hits a
/// ref whose tags the other set holds.
proof fn lemma_meets_hits(
    v: FolkView,
    actor: Seq<char>,
    taggers: Option<Seq<Seq<char>>>,
    x: Seq<char>,
    r: TagRef,
    ts: Seq<u64>,
    want: Seq<u64>,
)
    requires
        forall|t: u64| ts.contains(t) <==> #[trigger] carries(v, actor, taggers, x, t),
        forall|t: u64| want.contains(t) <==> #[trigger] covers(v, r, t),
    ensures
        meets(ts, want) == hits(v, actor, taggers, x, r),
{
    if meets(ts, want) {
        let t = choose|t: u64| #[trigger] ts.contains(t) && want.contains(t);
        assert(carries(v, actor, taggers, x, t) && covers(v, r, t));
    }
    if hits(v, actor, taggers, x, r) {
        let t = choose|t: u64| #[trigger] carries(v, actor, taggers, x, t) && covers(v, r, t);
        assert(ts.contains(t) && want.contains(t));
    }
}

impl Folksonomy {
    /// The items that carry at least one evaluated binding, sorted and
    /// distinct.
    fn candidates(&self, actor: &ActorId, taggers: &Option<Vec<ActorId>>) -> (r: Vec<ItemId>)
        ensures
            items_view(r@) == candidates(self@, actor@, taggers_view(*taggers)),
            sorted_by(items_view(r@), text_lt()),
            r@.len() <= self@.bindings.len(),
    {
        let ghost v = self@;
        let ghost p = counted_in(actor@, taggers_view(*taggers));
        let mut out: Vec<ItemId> = Vec::new();
        let mut i: usize = 0;
        proof {
            assert(v.bindings.take(0) =~= Seq::<BindingView>::empty());
            reveal(Seq::filter);
            assert(items_of(v.bindings.take(0).filter(p)) =~= Seq::<Seq<char>>::empty());
            assert(items_view(out@) =~= Seq::<Seq<char>>::empty());
        }
        while i < self.bindings.len()
            invariant
                v == self@,
                p == counted_in(actor@, taggers_view(*taggers)),
                i <= self.bindings@.len(),
                items_view(out@) == set_of(items_of(v.bindings.take(i as int).filter(p)), text_lt()),
                sorted_by(items_view(out@), text_lt()),
                out@.len() <= i,
            decreases self.bindings@.len() - i,
        {
            let ghost pre = v.bindings.take(i as int);
            let ghost b = v.bindings[i as int];
            proof {
                assert(v.bindings.take(i + 1) =~= pre.push(b));
                pre.lemma_filter_push(b, p);
            }
            if is_counted(actor, taggers, &self.bindings[i]) {
                let x = self.bindings[i].item.clone();
                items_insert(&mut out, x);
                proof {
                    let f = pre.filter(p);
                    assert(items_of(f.push(b)) =~= items_of(f).push(b.item));
                    assert(items_of(f).push(b.item).drop_last() =~= items_of(f));
                }
            }
            i = i + 1;
        }
        proof {
            assert(v.bindings.take(v.bindings.len() as int) =~= v.bindings);
        }
        out
    }

    /// The tags the evaluated bindings put directly on an item, sorted.
    fn item_tags(&self, actor: &ActorId, taggers: &Option<Vec<ActorId>>, x: &ItemId) -> (r: Vec<
        TagId,
    >)
        ensures
            sorted_by(ids_view(r@), id_lt()),
            forall|t: u64|
                ids_view(r@).contains(t) <==> #[trigger] carries(
                    self@,
                    actor@,
                    taggers_view(*taggers),
                    x@,
                    t,
                ),
    {
        let ghost v = self@;
        let ghost tv = taggers_view(*taggers);
        let mut out: Vec<TagId> = Vec::new();
        let mut i: usize = 0;
        proof {
            lemma_id_lt_order();
        }
        while i < self.bindings.len()
            invariant
                v == self@,
                tv == taggers_view(*taggers),
                i <= self.bindings@.len(),
                sorted_by(ids_view(out@), id_lt()),
                strict_weak(id_lt()),
                forall|t: u64|
                    ids_view(out@).contains(t) <==> exists|j: int|
                        0 <= j < i && #[trigger] counted(actor@, tv, v.bindings[j])
                            && v.bindings[j].item == x@ && v.bindings[j].tag == t,
            decreases self.bindings@.len() - i,
        {
            if is_counted(actor, taggers, &self.bindings[i]) && self.bindings[i].item.same(x) {
                let ghost before = ids_view(out@);
                let t = self.bindings[i].tag;
                ids_insert(&mut out, t);
                proof {
                    lemma_sorted_put_members(before, t.0, id_lt());
                    assert forall|u: u64|
                        ids_view(out@).contains(u) <==> exists|j: int|
                            0 <= j < i + 1 && #[trigger] counted(actor@, tv, v.bindings[j])
                                && v.bindings[j].item == x@ && v.bindings[j].tag == u by {
                        if u == t.0 {
                            assert(counted(actor@, tv, v.bindings[i as int]));
                        }
                    }
                }
            }
            i = i + 1;
        }
        out
    }

    /// The tags a ref stands for, sorted.
    fn expand(&self, r: TagRef) -> (out: Vec<TagId>)
        requires
            self.wf(),
            self@.has_tag(r.tag.0),
        ensures
            forall|t: u64| ids_view(out@).contains(t) <==> #[trigger] covers(self@, r, t),
    {
        if r.transitive {
            let mut d = self.closure(r.tag.0, false);
            let ghost before = ids_view(d@);
            ids_insert(&mut d, r.tag);
            proof {
                lemma_id_lt_order();
                lemma_sorted_put_members(before, r.tag.0, id_lt());
            }
            d
        } else {
            let out = vec![r.tag];
            proof {
                assert(ids_view(out@) =~= seq![r.tag.0]);
                assert forall|t: u64| ids_view(out@).contains(t) <==> #[trigger] covers(self@, r, t) by {
                    if t == r.tag.0 {
                        assert(ids_view(out@)[0] == t);
                    }
                }
            }
            out
        }
    }
}


/// Each set holds the tags the ref at its position stands for.
pub open spec fn expands(v: FolkView, sets: Seq<Vec<TagId>>, refs: Seq<TagRef>) -> bool {
    &&& sets.len() == refs.len()
    &&& forall|k: int, t: u64|
        #![trigger ids_view(sets[k]@).contains(t)]
        #![trigger covers(v, refs[k], t)]
        0 <= k < sets.len() ==> (ids_view(sets[k]@).contains(t) <==> covers(v, refs[k], t))
}

/// Whether the id set meets every set.
fn meets_all(ts: &Vec<TagId>, sets: &Vec<Vec<TagId>>) -> (r: bool)
    ensures
        r == forall|k: int| 0 <= k < sets@.len() ==> meets(ids_view(ts@), ids_view(#[trigger] sets@[k]@)),
{
    let mut k: usize = 0;
    while k < sets.len()
        invariant
            k <= sets@.len(),
            forall|j: int| 0 <= j < k ==> meets(ids_view(ts@), ids_view(#[trigger] sets@[j]@)),
        decreases sets@.len() - k,
    {
        if !ids_meet(ts, &sets[k]) {
            return false;
        }
        k = k + 1;
    }
    true
}

/// Whether the id set meets some set.
fn meets_any(ts: &Vec<TagId>, sets: &Vec<Vec<TagId>>) -> (r: bool)
    ensures
        r == exists|k: int| 0 <= k < sets@.len() && meets(ids_view(ts@), ids_view(#[trigger] sets@[k]@)),
{
    let mut k: usize = 0;
    while k < sets.len()
        invariant
            k <= sets@.len(),
            forall|j: int| 0 <= j < k ==> !meets(ids_view(ts@), ids_view(#[trigger] sets@[j]@)),
        decreases sets@.len() - k,
    {
        if ids_meet(ts, &sets[k]) {
            return true;
        }
        k = k + 1;
    }
    false
}

/// Meeting each expanded set is hitting each ref.
proof fn lemma_meets_refs(
    v: FolkView,
    actor: Seq<char>,
    taggers: Option<Seq<Seq<char>>>,
    x: Seq<char>,
    ts: Seq<u64>,
    sets: Seq<Vec<TagId>>,
    refs: Seq<TagRef>,
)
    requires
        forall|t: u64| ts.contains(t) <==> #[trigger] carries(v, actor, taggers, x, t),
        expands(v, sets, refs),
    ensures
        forall|k: int|
            0 <= k < refs.len() ==> (meets(ts, ids_view(#[trigger] sets[k]@)) == hits(
                v,
                actor,
                taggers,
                x,
                refs[k],
            )),
{
    assert forall|k: int| 0 <= k < refs.len() implies (meets(ts, ids_view(#[trigger] sets[k]@))
        == hits(v, actor, taggers, x, refs[k])) by {
        assert forall|t: u64| ids_view(sets[k]@).contains(t) <==> #[trigger] covers(v, refs[k], t) by {
        }
        lemma_meets_hits(v, actor, taggers, x, refs[k], ts, ids_view(sets[k]@));
    }
}

/// The refs checked before the `k`-th ref of clause `c`, and that ref's
/// place among all refs.
proof fn lemma_clause_prefix(sel: SelectionView, c: int, k: int)
    requires
        0 <= c < sel.any_of.len(),
        0 <= k < sel.any_of[c].len(),
    ensures
        ({
            let pre = sel.any_of.take(c).flatten() + sel.any_of[c].take(k);
            &&& pre.len() < all_refs(sel).len()
            &&& all_refs(sel)[pre.len() as int] == sel.any_of[c][k]
            &&& forall|j: int| 0 <= j < pre.len() ==> all_refs(sel)[j] == pre[j]
        }),
{
    let a = sel.any_of;
    assert(a =~= a.take(c + 1) + a.skip(c + 1));
    lemma_flatten_concat(a.take(c + 1), a.skip(c + 1));
    assert(a.take(c + 1) =~= a.take(c).push(a[c]));
    a.take(c).lemma_flatten_push(a[c]);
    let pre = a.take(c).flatten() + a[c].take(k);
    assert(all_refs(sel) =~= pre + a[c].skip(k) + a.skip(c + 1).flatten() + sel.none_of);
}

impl Folksonomy {
    /// The first ref of the selection, in checking order, whose tag does not
    /// exist.
    fn first_unknown(&self, sel: &Selection) -> (r: Option<TagRef>)
        requires
            self.wf(),
        ensures
            r == first_where(all_refs(sel@), unknown_in(self@)),
            r is None ==> forall|c: int, k: int|
                0 <= c < sel@.any_of.len() && 0 <= k < sel@.any_of[c].len() ==> self@.has_tag(
                    (#[trigger] sel@.any_of[c][k]).tag.0,
                ),
            r is None ==> forall|k: int|
                0 <= k < sel@.none_of.len() ==> self@.has_tag((#[trigger] sel@.none_of[k]).tag.0),
    {
        let ghost v = self@;
        let ghost sv = sel@;
        let ghost unknown = unknown_in(v);
        let ghost mut seen: Seq<TagRef> = Seq::empty();
        let mut c: usize = 0;
        proof {
            assert(sv.any_of.take(0) =~= Seq::<Seq<TagRef>>::empty());
        }
        while c < sel.any_of.len()
            invariant
                v == self@,
                v.wf(),
                sv == sel@,
                unknown == unknown_in(v),
                c <= sv.any_of.len(),
                seen == sv.any_of.take(c as int).flatten(),
                forall|j: int| 0 <= j < seen.len() ==> !unknown(#[trigger] seen[j]),
                forall|a: int, k: int|
                    0 <= a < c && 0 <= k < sv.any_of[a].len() ==> v.has_tag(
                        (#[trigger] sv.any_of[a][k]).tag.0,
                    ),
            decreases sv.any_of.len() - c,
        {
            let clause = &sel.any_of[c];
            let ghost base = seen;
            let mut k: usize = 0;
            proof {
                assert(clause@ == sv.any_of[c as int]);
                assert(clause@.take(0) =~= Seq::<TagRef>::empty());
                assert(seen =~= base + clause@.take(0));
            }
            while k < clause.len()
                invariant
                    v == self@,
                    v.wf(),
                    sv == sel@,
                    unknown == unknown_in(v),
                    c < sv.any_of.len(),
                    clause@ == sv.any_of[c as int],
                    base == sv.any_of.take(c as int).flatten(),
                    k <= clause@.len(),
                    seen == base + clause@.take(k as int),
                    forall|j: int| 0 <= j < seen.len() ==> !unknown(#[trigger] seen[j]),
                    forall|j: int| 0 <= j < k ==> v.has_tag((#[trigger] clause@[j]).tag.0),
                decreases clause@.len() - k,
            {
                let r = clause[k];
                if self.require(r.tag).is_err() {
                    proof {
                        lemma_clause_prefix(sv, c as int, k as int);
                        let all = all_refs(sv);
                        assert(seen == sv.any_of.take(c as int).flatten() + sv.any_of[c as int].take(
                            k as int,
                        ));
                        assert(all[seen.len() as int] == r);
                        assert(unknown(r));
                        assert forall|j: int| 0 <= j < seen.len() implies !unknown(
                            #[trigger] all[j],
                        ) by {
                            assert(all[j] == seen[j]);
                        }
                        assert(is_first(all, unknown, seen.len() as int));
                        lemma_first_where_found(all_refs(sv), unknown, seen.len() as int);
                    }
                    return Some(r);
                }
                proof {
                    assert(clause@.take(k + 1) =~= clause@.take(k as int).push(r));
                    seen = seen.push(r);
                    assert(seen =~= base + clause@.take(k + 1));
                }
                k = k + 1;
            }
            proof {
                assert(clause@.take(k as int) =~= clause@);
                assert(sv.any_of.take(c + 1) =~= sv.any_of.take(c as int).push(clause@));
                sv.any_of.take(c as int).lemma_flatten_push(clause@);
            }
            c = c + 1;
        }
        proof {
            assert(sv.any_of.take(c as int) =~= sv.any_of);
        }
        let ghost base = seen;
        let mut k: usize = 0;
        proof {
            assert(sel.none_of@.take(0) =~= Seq::<TagRef>::empty());
            assert(seen =~= base + sel.none_of@.take(0));
        }
        while k < sel.none_of.len()
            invariant
                v == self@,
                v.wf(),
                sv == sel@,
                unknown == unknown_in(v),
                base == sv.any_of.flatten(),
                k <= sv.none_of.len(),
                seen == base + sv.none_of.take(k as int),
                forall|j: int| 0 <= j < seen.len() ==> !unknown(#[trigger] seen[j]),
                forall|a: int, j: int|
                    0 <= a < sv.any_of.len() && 0 <= j < sv.any_of[a].len() ==> v.has_tag(
                        (#[trigger] sv.any_of[a][j]).tag.0,
                    ),
                forall|j: int| 0 <= j < k ==> v.has_tag((#[trigger] sv.none_of[j]).tag.0),
            decreases sv.none_of.len() - k,
        {
            let r = sel.none_of[k];
            if self.require(r.tag).is_err() {
                proof {
                    assert(all_refs(sv) =~= seen + sv.none_of.skip(k as int));
                    assert(is_first(all_refs(sv), unknown, seen.len() as int));
                    lemma_first_where_found(all_refs(sv), unknown, seen.len() as int);
                }
                return Some(r);
            }
            proof {
                assert(sv.none_of.take(k + 1) =~= sv.none_of.take(k as int).push(r));
                seen = seen.push(r);
                assert(seen =~= base + sv.none_of.take(k + 1));
            }
            k = k + 1;
        }
        proof {
            assert(sv.none_of.take(k as int) =~= sv.none_of);
            lemma_first_where_none(all_refs(sv), unknown);
        }
        None
    }
}


impl Folksonomy {
    /// Whether the selection picks the item, given each ref's tags.
    fn item_selected(
        &self,
        actor: &ActorId,
        sel: &Selection,
        clauses: &Vec<Vec<Vec<TagId>>>,
        excl: &Vec<Vec<TagId>>,
        x: &ItemId,
    ) -> (r: bool)
        requires
            clauses@.len() == sel@.any_of.len(),
            forall|c: int|
                0 <= c < clauses@.len() ==> expands(self@, #[trigger] clauses@[c]@, sel@.any_of[c]),
            expands(self@, excl@, sel@.none_of),
        ensures
            r == selects(self@, actor@, sel@, x@),
    {
        let ghost v = self@;
        let ghost sv = sel@;
        let ts = self.item_tags(actor, &sel.taggers, x);
        let mut included = clauses.len() == 0;
        let mut c: usize = 0;
        while c < clauses.len()
            invariant
                v == self@,
                sv == sel@,
                clauses@.len() == sv.any_of.len(),
                forall|a: int|
                    0 <= a < clauses@.len() ==> expands(v, #[trigger] clauses@[a]@, sv.any_of[a]),
                forall|t: u64|
                    ids_view(ts@).contains(t) <==> #[trigger] carries(v, actor@, sv.taggers, x@, t),
                c <= clauses@.len(),
                included == (sv.any_of.len() == 0 || exists|a: int|
                    0 <= a < c && #[trigger] clause_holds(v, actor@, sv.taggers, x@, sv.any_of[a])),
            decreases clauses@.len() - c,
        {
            let all = meets_all(&ts, &clauses[c]);
            proof {
                let refs = sv.any_of[c as int];
                lemma_meets_refs(v, actor@, sv.taggers, x@, ids_view(ts@), clauses@[c as int]@, refs);
                if all {
                    assert forall|k: int| 0 <= k < refs.len() implies hits(
                        v,
                        actor@,
                        sv.taggers,
                        x@,
                        #[trigger] refs[k],
                    ) by {
                        assert(meets(ids_view(ts@), ids_view(clauses@[c as int]@[k]@)));
                    }
                    assert(clause_holds(v, actor@, sv.taggers, x@, sv.any_of[c as int]));
                } else {
                    let k = choose|k: int|
                        0 <= k < clauses@[c as int]@.len() && !meets(
                            ids_view(ts@),
                            ids_view(#[trigger] clauses@[c as int]@[k]@),
                        );
                    assert(!hits(v, actor@, sv.taggers, x@, refs[k]));
                    assert(!clause_holds(v, actor@, sv.taggers, x@, sv.any_of[c as int]));
                }
            }
            included = included || all;
            c = c + 1;
        }
        let excluded = meets_any(&ts, excl);
        proof {
            lemma_meets_refs(v, actor@, sv.taggers, x@, ids_view(ts@), excl@, sv.none_of);
            if excluded {
                let k = choose|k: int|
                    0 <= k < excl@.len() && meets(ids_view(ts@), ids_view(#[trigger] excl@[k]@));
                assert(hits(v, actor@, sv.taggers, x@, sv.none_of[k]));
            } else {
                assert forall|k: int| 0 <= k < sv.none_of.len() implies !hits(
                    v,
                    actor@,
                    sv.taggers,
                    x@,
                    #[trigger] sv.none_of[k],
                ) by {
                    assert(!meets(ids_view(ts@), ids_view(excl@[k]@)));
                }
            }
        }
        included && !excluded
    }

    /// The tags each ref of a list stands for.
    fn expand_all(&self, refs: &Vec<TagRef>) -> (sets: Vec<Vec<TagId>>)
        requires
            self.wf(),
            forall|k: int| 0 <= k < refs@.len() ==> self@.has_tag((#[trigger] refs@[k]).tag.0),
        ensures
            expands(self@, sets@, refs@),
    {
        let mut sets: Vec<Vec<TagId>> = Vec::new();
        let mut k: usize = 0;
        while k < refs.len()
            invariant
                self.wf(),
                forall|j: int| 0 <= j < refs@.len() ==> self@.has_tag((#[trigger] refs@[j]).tag.0),
                k <= refs@.len(),
                sets@.len() == k,
                forall|j: int, t: u64|
                    #![trigger ids_view(sets@[j]@).contains(t)]
                    #![trigger covers(self@, refs@[j], t)]
                    0 <= j < k ==> (ids_view(sets@[j]@).contains(t) <==> covers(self@, refs@[j], t)),
            decreases refs@.len() - k,
        {
            let set = self.expand(refs[k]);
            sets.push(set);
            k = k + 1;
        }
        sets
    }

    /// Items matching a selection as seen by an actor, or the first unknown
    /// tag it names.
    fn matches(&self, actor: &ActorId, sel: &Selection) -> (r: Result<Vec<ItemId>, FolkError>)
        requires
            self.wf(),
        ensures
            match first_where(all_refs(sel@), unknown_in(self@)) {
                Some(bad) => r == Err::<Vec<ItemId>, FolkError>(FolkError::UnknownTag(bad.tag)),
                None => r matches Ok(items) && items_view(items@) == matched(self@, actor@, sel@)
                    && items@.len() <= self@.bindings.len() && sorted_by(items_view(items@), text_lt()),
            },
    {
        if let Some(bad) = self.first_unknown(sel) {
            return Err(FolkError::UnknownTag(bad.tag));
        }
        let ghost v = self@;
        let ghost sv = sel@;
        let mut clauses: Vec<Vec<Vec<TagId>>> = Vec::new();
        let mut c: usize = 0;
        while c < sel.any_of.len()
            invariant
                v == self@,
                self.wf(),
                sv == sel@,
                forall|a: int, k: int|
                    0 <= a < sv.any_of.len() && 0 <= k < sv.any_of[a].len() ==> v.has_tag(
                        (#[trigger] sv.any_of[a][k]).tag.0,
                    ),
                c <= sv.any_of.len(),
                clauses@.len() == c,
                forall|a: int| 0 <= a < c ==> expands(v, #[trigger] clauses@[a]@, sv.any_of[a]),
            decreases sv.any_of.len() - c,
        {
            proof {
                assert(sel.any_of@[c as int]@ == sv.any_of[c as int]);
                assert forall|k: int| 0 <= k < sv.any_of[c as int].len() implies v.has_tag(
                    (#[trigger] sel.any_of@[c as int]@[k]).tag.0,
                ) by {
                    assert(sv.any_of[c as int][k] == sel.any_of@[c as int]@[k]);
                }
            }
            let sets = self.expand_all(&sel.any_of[c]);
            clauses.push(sets);
            c = c + 1;
        }
        let excl = self.expand_all(&sel.none_of);
        let cands = self.candidates(actor, &sel.taggers);
        let ghost cv = items_view(cands@);
        let ghost p = selected(v, actor@, sv);
        let mut out: Vec<ItemId> = Vec::new();
        let mut j: usize = 0;
        proof {
            assert(cv.take(0) =~= Seq::<Seq<char>>::empty());
            reveal(Seq::filter);
            assert(items_view(out@) =~= Seq::<Seq<char>>::empty());
        }
        while j < cands.len()
            invariant
                v == self@,
                sv == sel@,
                cv == items_view(cands@),
                p == selected(v, actor@, sv),
                clauses@.len() == sv.any_of.len(),
                forall|a: int|
                    0 <= a < clauses@.len() ==> expands(v, #[trigger] clauses@[a]@, sv.any_of[a]),
                expands(v, excl@, sv.none_of),
                j <= cands@.len(),
                items_view(out@) == cv.take(j as int).filter(p),
                out@.len() <= j,
            decreases cands@.len() - j,
        {
            proof {
                assert(cv.take(j + 1) =~= cv.take(j as int).push(cv[j as int]));
                cv.take(j as int).lemma_filter_push(cv[j as int], p);
            }
            if self.item_selected(actor, sel, &clauses, &excl, &cands[j]) {
                let x = cands[j].clone();
                let ghost before = items_view(out@);
                out.push(x);
                proof {
                    assert(items_view(out@) =~= before.push(x@));
                }
            }
            j = j + 1;
        }
        proof {
            assert(cv.take(cv.len() as int) =~= cv);
            lemma_filter_sorted(cv, p, text_lt());
        }
        Ok(out)
    }

    /// Items matching `sel` as seen by `actor`, deduplicated and sorted
    /// bytewise by item id. Refused with [`FolkError::UnknownTag`], naming
    /// the first ref (clauses in turn, then exclusions) whose tag does not
    /// exist.
    pub fn query(&self, actor: &ActorId, sel: &Selection) -> (r: Result<Vec<ItemId>, FolkError>)
        requires
            self.wf(),
        ensures
            match first_where(all_refs(sel@), unknown_in(self@)) {
                Some(bad) => r == Err::<Vec<ItemId>, FolkError>(FolkError::UnknownTag(bad.tag)),
                None => r matches Ok(items) && items_view(items@) == matched(self@, actor@, sel@)
                    && sorted_by(items_view(items@), text_lt()),
            },
    {
        self.matches(actor, sel)
    }
}


// ---------------------------------------------------------------------------
// Facets.

/// Tallies kept by tag id.
pub open spec fn by_tag() -> spec_fn(TagCount, TagCount) -> bool {
    |a: TagCount, b: TagCount| a.tag.0 < b.tag.0
}

/// The tally a list sorted by tag holds for a tag; 0 when it holds none.
pub open spec fn count_of(s: Seq<TagCount>, t: u64) -> int {
    if exists|i: int| 0 <= i < s.len() && s[i].tag.0 == t {
        s[choose|i: int| 0 <= i < s.len() && s[i].tag.0 == t].count as int
    } else {
        0
    }
}

/// In a list sorted by tag, an entry's tally is the list's tally for its tag.
proof fn lemma_count_of_at(s: Seq<TagCount>, i: int)
    requires
        sorted_by(s, by_tag()),
        0 <= i < s.len(),
    ensures
        count_of(s, s[i].tag.0) == s[i].count,
{
    let t = s[i].tag.0;
    let j = choose|j: int| 0 <= j < s.len() && s[j].tag.0 == t;
    if j < i {
        assert(by_tag()(s[j], s[i]));
    } else if i < j {
        assert(by_tag()(s[i], s[j]));
    }
}

/// Tallies by tag, and facets by count then tag, are strict weak orders.
proof fn lemma_facet_orders()
    ensures
        strict_weak(by_tag()),
        strict_weak(facet_lt()),
        forall|a: TagCount, b: TagCount|
            !#[trigger] facet_lt()(a, b) && !#[trigger] facet_lt()(b, a) ==> a == b,
{
    reveal(strict_weak);
    assert forall|a: TagCount, b: TagCount|
        !#[trigger] facet_lt()(a, b) && !#[trigger] facet_lt()(b, a) implies a == b by {
        assert(a.tag.0 == b.tag.0);
        assert(a.tag == b.tag);
    }
}

/// Adds one to the tally for a tag.
fn bump(counts: &mut Vec<TagCount>, t: TagId)
    requires
        sorted_by(old(counts)@, by_tag()),
        forall|i: int| 0 <= i < old(counts)@.len() ==> (#[trigger] old(counts)@[i]).count > 0,
        count_of(old(counts)@, t.0) < u32::MAX,
    ensures
        sorted_by(final(counts)@, by_tag()),
        forall|i: int| 0 <= i < final(counts)@.len() ==> (#[trigger] final(counts)@[i]).count > 0,
        forall|u: u64|
            #[trigger] count_of(final(counts)@, u) == count_of(old(counts)@, u) + (if u == t.0 {
                1int
            } else {
                0int
            }),
{
    let ghost s = counts@;
    let mut i: usize = 0;
    while i < counts.len() && counts[i].tag.0 < t.0
        invariant
            i <= counts@.len(),
            s == counts@,
            forall|j: int| 0 <= j < i ==> (#[trigger] s[j]).tag.0 < t.0,
        decreases counts@.len() - i,
    {
        i = i + 1;
    }
    proof {
        lemma_facet_orders();
    }
    if i < counts.len() && counts[i].tag.0 == t.0 {
        let c = counts[i].count;
        proof {
            lemma_count_of_at(s, i as int);
        }
        let x = TagCount { tag: t, count: c + 1 };
        counts.set(i, x);
        proof {
            lemma_sorted_put(s, x, by_tag(), i as int);
            let f = counts@;
            assert forall|u: u64| #[trigger] count_of(f, u) == count_of(s, u) + (if u == t.0 {
                1int
            } else {
                0int
            }) by {
                if u == t.0 {
                    assert(f[i as int].tag == t);
                    lemma_count_of_at(f, i as int);
                } else if exists|j: int| 0 <= j < f.len() && f[j].tag.0 == u {
                    let j = choose|j: int| 0 <= j < f.len() && f[j].tag.0 == u;
                    lemma_count_of_at(f, j);
                    assert(s[j] == f[j]);
                    lemma_count_of_at(s, j);
                } else {
                    assert forall|j: int| 0 <= j < s.len() implies s[j].tag.0 != u by {
                        if j != i {
                            assert(s[j] == f[j]);
                        }
                    }
                }
            }
        }
    } else {
        let x = TagCount { tag: t, count: 1 };
        counts.insert(i, x);
        proof {
            lemma_sorted_put(s, x, by_tag(), i as int);
            let f = counts@;
            assert forall|j: int| 0 <= j < s.len() implies s[j].tag.0 != t.0 by {
                if j > i {
                    assert(by_tag()(s[i as int], s[j]));
                }
            }
            assert forall|u: u64| #[trigger] count_of(f, u) == count_of(s, u) + (if u == t.0 {
                1int
            } else {
                0int
            }) by {
                if u == t.0 {
                    lemma_count_of_at(f, i as int);
                } else if exists|j: int| 0 <= j < f.len() && f[j].tag.0 == u {
                    let j = choose|j: int| 0 <= j < f.len() && f[j].tag.0 == u;
                    lemma_count_of_at(f, j);
                    let k = if j < i { j } else { j - 1 };
                    assert(s[k] == f[j]);
                    lemma_count_of_at(s, k);
                } else {
                    assert forall|j: int| 0 <= j < s.len() implies s[j].tag.0 != u by {
                        let k = if j < i { j } else { j + 1 };
                        assert(s[j] == f[k]);
                    }
                }
            }
        }
    }
}

/// Whether facet `a` comes before facet `b`.
fn facet_before(a: &TagCount, b: &TagCount) -> (r: bool)
    ensures
        r == facet_lt()(*a, *b),
{
    a.count > b.count || (a.count == b.count && a.tag.0 < b.tag.0)
}

/// Puts a facet in its place in a list sorted by count then tag.
fn facet_insert(out: &mut Vec<TagCount>, x: TagCount)
    requires
        sorted_by(old(out)@, facet_lt()),
    ensures
        final(out)@ == sorted_put(old(out)@, x, facet_lt()),
        sorted_by(final(out)@, facet_lt()),
{
    let ghost s = out@;
    let mut i: usize = 0;
    while i < out.len() && facet_before(&out[i], &x)
        invariant
            i <= out@.len(),
            s == out@,
            forall|j: int| 0 <= j < i ==> #[trigger] facet_lt()(s[j], x),
        decreases out@.len() - i,
    {
        i = i + 1;
    }
    proof {
        lemma_facet_orders();
        lemma_sorted_put(s, x, facet_lt(), i as int);
    }
    if i < out.len() && !facet_before(&x, &out[i]) {
        out.set(i, x);
    } else {
        out.insert(i, x);
    }
}

impl Folksonomy {
    /// For the items `sel` matches, how many distinct items carry each tag
    /// directly (not transitively), for every tag at least one of them
    /// carries. Sorted by count descending, then tag id ascending. Refused as
    /// [`Folksonomy::query`] is.
    pub fn facets(&self, actor: &ActorId, sel: &Selection) -> (r: Result<Vec<TagCount>, FolkError>)
        requires
            self.wf(),
            first_where(all_refs(sel@), unknown_in(self@)) is None ==> forall|t: u64|
                #[trigger] tally(self@, actor@, sel@, t) <= u32::MAX,
        ensures
            match first_where(all_refs(sel@), unknown_in(self@)) {
                Some(bad) => r == Err::<Vec<TagCount>, FolkError>(FolkError::UnknownTag(bad.tag)),
                None => r matches Ok(out) && sorted_by(out@, facet_lt()) && forall|c: TagCount|
                    #[trigger] out@.contains(c) <==> (c.count > 0 && c.count == tally(
                        self@,
                        actor@,
                        sel@,
                        c.tag.0,
                    )),
            },
    {
        let items = self.matches(actor, sel)?;
        let ghost v = self@;
        let ghost sv = sel@;
        let ghost m = items_view(items@);
        let mut counts: Vec<TagCount> = Vec::new();
        let mut j: usize = 0;
        proof {
            assert forall|u: u64| #[trigger] m.filter(carrying(v, actor@, sv.taggers, u)).len()
                <= u32::MAX by {
                assert(tally(v, actor@, sv, u) <= u32::MAX);
            }
            reveal(Seq::filter);
            assert forall|u: u64| #[trigger] count_of(counts@, u) == m.take(0).filter(
                carrying(v, actor@, sv.taggers, u),
            ).len() by {
                assert(m.take(0).filter(carrying(v, actor@, sv.taggers, u)) =~= Seq::<
                    Seq<char>,
                >::empty());
            }
        }
        while j < items.len()
            invariant
                v == self@,
                sv == sel@,
                m == items_view(items@),
                forall|u: u64| #[trigger] m.filter(carrying(v, actor@, sv.taggers, u)).len() <= u32::MAX,
                j <= m.len(),
                sorted_by(counts@, by_tag()),
                forall|i: int| 0 <= i < counts@.len() ==> (#[trigger] counts@[i]).count > 0,
                forall|u: u64|
                    #[trigger] count_of(counts@, u) == m.take(j as int).filter(
                        carrying(v, actor@, sv.taggers, u),
                    ).len(),
            decreases m.len() - j,
        {
            let ts = self.item_tags(actor, &sel.taggers, &items[j]);
            let ghost tv = ids_view(ts@);
            let ghost pre = m.take(j as int);
            let mut k: usize = 0;
            proof {
                lemma_sorted_ids_distinct(tv);
                assert forall|u: u64| #[trigger] count_of(counts@, u) == pre.filter(
                    carrying(v, actor@, sv.taggers, u),
                ).len() + (if tv.take(0).contains(u) {
                    1int
                } else {
                    0int
                }) by {}
            }
            while k < ts.len()
                invariant
                    v == self@,
                    sv == sel@,
                    m == items_view(items@),
                    forall|u: u64| #[trigger] m.filter(carrying(v, actor@, sv.taggers, u)).len() <= u32::MAX,
                    j < m.len(),
                    forall|u: u64| tv.contains(u) ==> #[trigger] carries(v, actor@, sv.taggers, m[j as int], u),
                    pre == m.take(j as int),
                    tv == ids_view(ts@),
                    tv.no_duplicates(),
                    k <= tv.len(),
                    sorted_by(counts@, by_tag()),
                    forall|i: int| 0 <= i < counts@.len() ==> (#[trigger] counts@[i]).count > 0,
                    forall|u: u64|
                        #[trigger] count_of(counts@, u) == pre.filter(
                            carrying(v, actor@, sv.taggers, u),
                        ).len() + (if tv.take(k as int).contains(u) {
                            1int
                        } else {
                            0int
                        }),
                decreases tv.len() - k,
            {
                let t = ts[k];
                proof {
                    let p = carrying(v, actor@, sv.taggers, t.0);
                    assert(tv.contains(tv[k as int]));
                    assert(p(m[j as int]));
                    assert(m.take(j + 1) =~= pre.push(m[j as int]));
                    pre.lemma_filter_len_push(p, m[j as int]);
                    m.lemma_filter_take_len(p, j + 1);
                    assert(m.filter(p).len() <= u32::MAX);
                    if tv.take(k as int).contains(t.0) {
                        let a = choose|a: int| 0 <= a < k && tv.take(k as int)[a] == t.0;
                        assert(tv[a] == tv[k as int]);
                    }
                    assert(count_of(counts@, t.0) == pre.filter(
                        carrying(v, actor@, sv.taggers, t.0),
                    ).len());
                }
                let ghost was = counts@;
                bump(&mut counts, t);
                proof {
                    let now = tv.take(k + 1);
                    let then = tv.take(k as int);
                    assert(now =~= then.push(t.0));
                    assert forall|u: u64| #[trigger] count_of(counts@, u) == pre.filter(
                        carrying(v, actor@, sv.taggers, u),
                    ).len() + (if now.contains(u) {
                        1int
                    } else {
                        0int
                    }) by {
                        assert(count_of(counts@, u) == count_of(was, u) + (if u == t.0 {
                            1int
                        } else {
                            0int
                        }));
                        if u == t.0 {
                            assert(now[k as int] == u);
                        } else {
                            if now.contains(u) {
                                let a = choose|a: int| 0 <= a < now.len() && now[a] == u;
                                assert(then[a] == u);
                            }
                            if then.contains(u) {
                                let a = choose|a: int| 0 <= a < then.len() && then[a] == u;
                                assert(now[a] == u);
                            }
                        }
                    }
                }
                k = k + 1;
            }
            proof {
                assert(tv.take(k as int) =~= tv);
                assert(m.take(j + 1) =~= pre.push(m[j as int]));
                assert forall|u: u64| #[trigger] count_of(counts@, u) == m.take(j + 1).filter(
                    carrying(v, actor@, sv.taggers, u),
                ).len() by {
                    pre.lemma_filter_len_push(carrying(v, actor@, sv.taggers, u), m[j as int]);
                    assert(tv.contains(u) == carries(v, actor@, sv.taggers, m[j as int], u));
                }
            }
            j = j + 1;
        }
        proof {
            assert(m.take(m.len() as int) =~= m);
        }
        let mut out: Vec<TagCount> = Vec::new();
        let mut i: usize = 0;
        proof {
            lemma_facet_orders();
        }
        while i < counts.len()
            invariant
                strict_weak(facet_lt()),
                forall|a: TagCount, b: TagCount|
                    !#[trigger] facet_lt()(a, b) && !#[trigger] facet_lt()(b, a) ==> a == b,
                i <= counts@.len(),
                sorted_by(out@, facet_lt()),
                forall|c: TagCount| #[trigger] out@.contains(c) <==> counts@.take(i as int).contains(c),
            decreases counts@.len() - i,
        {
            let ghost before = out@;
            facet_insert(&mut out, counts[i]);
            proof {
                let x = counts@[i as int];
                lemma_sorted_put_members(before, x, facet_lt());
                let now = counts@.take(i + 1);
                let then = counts@.take(i as int);
                assert(now =~= then.push(x));
                assert forall|c: TagCount| #[trigger] out@.contains(c) <==> now.contains(c) by {
                    if c == x {
                        assert(now[i as int] == c);
                    } else {
                        if now.contains(c) {
                            let a = choose|a: int| 0 <= a < now.len() && now[a] == c;
                            assert(then[a] == c);
                        }
                        if then.contains(c) {
                            let a = choose|a: int| 0 <= a < then.len() && then[a] == c;
                            assert(now[a] == c);
                        }
                    }
                }
            }
            i = i + 1;
        }
        proof {
            assert(counts@.take(i as int) =~= counts@);
            assert forall|c: TagCount| #[trigger] out@.contains(c) <==> (c.count > 0 && c.count
                == tally(v, actor@, sv, c.tag.0)) by {
                if counts@.contains(c) {
                    let a = choose|a: int| 0 <= a < counts@.len() && counts@[a] == c;
                    lemma_count_of_at(counts@, a);
                }
                if c.count > 0 && c.count == tally(v, actor@, sv, c.tag.0) {
                    assert(count_of(counts@, c.tag.0) == c.count);
                    let a = choose|a: int| 0 <= a < counts@.len() && counts@[a].tag.0 == c.tag.0;
                    lemma_count_of_at(counts@, a);
                    assert(counts@[a].tag == c.tag);
                    assert(counts@[a] == c);
                }
            }
        }
        Ok(out)
    }
}


// ---------------------------------------------------------------------------
// Reads see only what they may.

/// Filtering by a predicate that implies another: the first filter alone.
pub(crate) proof fn lemma_filter_twice<A>(s: Seq<A>, q: spec_fn(A) -> bool, p: spec_fn(A) -> bool)
    requires
        forall|x: A| #[trigger] p(x) ==> q(x),
    ensures
        s.filter(q).filter(p) == s.filter(p),
    decreases s.len(),
{
    reveal(Seq::filter);
    if s.len() > 0 {
        let r = s.drop_last();
        let x = s.last();
        lemma_filter_twice(r, q, p);
        assert(s =~= r.push(x));
        r.lemma_filter_push(x, q);
        r.lemma_filter_push(x, p);
        if q(x) {
            r.filter(q).lemma_filter_push(x, p);
        }
    }
}

/// States with the same edges reach alike.
proof fn lemma_same_reach(v: FolkView, w: FolkView)
    requires
        v.tags == w.tags,
    ensures
        forall|up: bool, a: u64, b: u64| #[trigger] reaches(v, up, a, b) == reaches(w, up, a, b),
{
    assert forall|up: bool, a: u64, b: u64| #[trigger] reaches(v, up, a, b) == reaches(w, up, a, b) by {
        if reaches(v, up, a, b) {
            let p = choose|p: Seq<u64>| #[trigger] is_walk(v, up, p) && p[0] == a && p.last() == b;
            assert forall|k: int| 0 <= k < p.len() - 1 implies #[trigger] step(w, up, p[k], p[k + 1]) by {
                assert(step(v, up, p[k], p[k + 1]));
            }
            assert(is_walk(w, up, p));
        }
        if reaches(w, up, a, b) {
            let p = choose|p: Seq<u64>| #[trigger] is_walk(w, up, p) && p[0] == a && p.last() == b;
            assert forall|k: int| 0 <= k < p.len() - 1 implies #[trigger] step(v, up, p[k], p[k + 1]) by {
                assert(step(w, up, p[k], p[k + 1]));
            }
            assert(is_walk(v, up, p));
        }
    }
}

/// Two states with the same tags and the same evaluated bindings match the
/// same items and count the same facets.
proof fn lemma_same_reads(v: FolkView, w: FolkView, actor: Seq<char>, sel: SelectionView)
    requires
        v.tags == w.tags,
        v.bindings.filter(counted_in(actor, sel.taggers)) == w.bindings.filter(
            counted_in(actor, sel.taggers),
        ),
    ensures
        matched(v, actor, sel) == matched(w, actor, sel),
        forall|t: u64| #[trigger] tally(v, actor, sel, t) == tally(w, actor, sel, t),
{
    let taggers = sel.taggers;
    let c = counted_in(actor, taggers);
    assert forall|x: Seq<char>, t: u64| #[trigger] carries(v, actor, taggers, x, t) == carries(
        w,
        actor,
        taggers,
        x,
        t,
    ) by {
        if carries(v, actor, taggers, x, t) {
            let i = choose|i: int|
                0 <= i < v.bindings.len() && #[trigger] counted(actor, taggers, v.bindings[i])
                    && v.bindings[i].item == x && v.bindings[i].tag == t;
            lemma_filter_contains_iff(v.bindings, c, v.bindings[i]);
            lemma_filter_contains_iff(w.bindings, c, v.bindings[i]);
            let j = choose|j: int| 0 <= j < w.bindings.len() && w.bindings[j] == v.bindings[i];
            assert(counted(actor, taggers, w.bindings[j]));
        }
        if carries(w, actor, taggers, x, t) {
            let j = choose|j: int|
                0 <= j < w.bindings.len() && #[trigger] counted(actor, taggers, w.bindings[j])
                    && w.bindings[j].item == x && w.bindings[j].tag == t;
            lemma_filter_contains_iff(w.bindings, c, w.bindings[j]);
            lemma_filter_contains_iff(v.bindings, c, w.bindings[j]);
            let i = choose|i: int| 0 <= i < v.bindings.len() && v.bindings[i] == w.bindings[j];
            assert(counted(actor, taggers, v.bindings[i]));
        }
    }
    lemma_same_reach(v, w);
    assert forall|x: Seq<char>, r: TagRef| #[trigger] hits(v, actor, taggers, x, r) == hits(
        w,
        actor,
        taggers,
        x,
        r,
    ) by {
        if hits(v, actor, taggers, x, r) {
            let t = choose|t: u64| #[trigger] carries(v, actor, taggers, x, t) && covers(v, r, t);
            assert(carries(w, actor, taggers, x, t) && covers(w, r, t));
        }
        if hits(w, actor, taggers, x, r) {
            let t = choose|t: u64| #[trigger] carries(w, actor, taggers, x, t) && covers(w, r, t);
            assert(carries(v, actor, taggers, x, t) && covers(v, r, t));
        }
    }
    assert forall|x: Seq<char>, cl: Seq<TagRef>| #[trigger] clause_holds(v, actor, taggers, x, cl)
        == clause_holds(w, actor, taggers, x, cl) by {
        if clause_holds(v, actor, taggers, x, cl) {
            assert forall|k: int| 0 <= k < cl.len() implies hits(w, actor, taggers, x, #[trigger] cl[k]) by {
                assert(hits(v, actor, taggers, x, cl[k]));
            }
        }
        if clause_holds(w, actor, taggers, x, cl) {
            assert forall|k: int| 0 <= k < cl.len() implies hits(v, actor, taggers, x, #[trigger] cl[k]) by {
                assert(hits(w, actor, taggers, x, cl[k]));
            }
        }
    }
    assert forall|x: Seq<char>| #[trigger] selects(v, actor, sel, x) == selects(w, actor, sel, x) by {
        if selects(v, actor, sel, x) {
            if sel.any_of.len() != 0 {
                let k = choose|k: int|
                    0 <= k < sel.any_of.len() && #[trigger] clause_holds(v, actor, taggers, x, sel.any_of[k]);
                assert(clause_holds(w, actor, taggers, x, sel.any_of[k]));
            }
            assert forall|k: int| 0 <= k < sel.none_of.len() implies !hits(w, actor, taggers, x, #[trigger] sel.none_of[k]) by {
                assert(!hits(v, actor, taggers, x, sel.none_of[k]));
            }
        }
        if selects(w, actor, sel, x) {
            if sel.any_of.len() != 0 {
                let k = choose|k: int|
                    0 <= k < sel.any_of.len() && #[trigger] clause_holds(w, actor, taggers, x, sel.any_of[k]);
                assert(clause_holds(v, actor, taggers, x, sel.any_of[k]));
            }
            assert forall|k: int| 0 <= k < sel.none_of.len() implies !hits(v, actor, taggers, x, #[trigger] sel.none_of[k]) by {
                assert(!hits(w, actor, taggers, x, sel.none_of[k]));
            }
        }
    }
    assert(selected(v, actor, sel) =~= selected(w, actor, sel));
    assert(candidates(v, actor, taggers) == candidates(w, actor, taggers));
    assert(matched(v, actor, sel) == matched(w, actor, sel));
    assert forall|t: u64| #[trigger] tally(v, actor, sel, t) == tally(w, actor, sel, t) by {
        assert(carrying(v, actor, taggers, t) =~= carrying(w, actor, taggers, t));
    }
}

/// What a read shows an actor depends only on what that actor may see: two
/// states with the same vocabulary and the same bindings visible to the
/// actor (they differ at most in other actors' private bindings) refuse the
/// same selections, match the same items, count the same facets, show the
/// same bindings on every item and project to the same view.
pub proof fn law_reads_ignore_hidden_bindings(
    v: FolkView,
    w: FolkView,
    actor: Seq<char>,
    sel: SelectionView,
)
    requires
        v.tags == w.tags,
        v.bindings.filter(visible_to(actor)) == w.bindings.filter(visible_to(actor)),
    ensures
        first_where(all_refs(sel), unknown_in(v)) == first_where(all_refs(sel), unknown_in(w)),
        matched(v, actor, sel) == matched(w, actor, sel),
        forall|t: u64| #[trigger] tally(v, actor, sel, t) == tally(w, actor, sel, t),
        forall|item: Seq<char>|
            #[trigger] v.bindings.filter(visible_on(actor, item)) == w.bindings.filter(
                visible_on(actor, item),
            ),
{
    let vis = visible_to(actor);
    assert(unknown_in(v) =~= unknown_in(w));
    lemma_filter_twice(v.bindings, vis, counted_in(actor, sel.taggers));
    lemma_filter_twice(w.bindings, vis, counted_in(actor, sel.taggers));
    lemma_same_reads(v, w, actor, sel);
    assert forall|item: Seq<char>|
        #[trigger] v.bindings.filter(visible_on(actor, item)) == w.bindings.filter(visible_on(actor, item)) by {
        lemma_filter_twice(v.bindings, vis, visible_on(actor, item));
        lemma_filter_twice(w.bindings, vis, visible_on(actor, item));
    }
}

} // verus!
