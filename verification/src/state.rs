//! Kernel state: the vocabulary, the bindings, and governance-as-data.

use vstd::prelude::*;

use crate::ids::{ActorId, ItemId, TagId};
use crate::sorted::{sorted_by, strict_weak};
use crate::text::{chars_lt, lemma_chars_order};

pub mod apply;
mod collections;
pub mod fold;
pub mod graph;
pub mod laws;
pub mod load;
pub mod query;
pub mod read;
pub mod valid;

pub use apply::Transition;
pub use query::{FolksonomyView, Selection, SelectionView, TagCount, TagRef};

verus! {

/// Who may see a binding. A private binding is visible only to its tagger.
#[derive(Debug, Clone, Copy, PartialEq, Eq, Structural, PartialOrd, Ord, Hash)]
pub enum Visibility {
    /// Visible to every actor.
    Public,
    /// Visible only to the tagger.
    Private,
}

/// A concept in the vocabulary. `label` is the preferred label, `aliases` are
/// alternative labels that resolve to it; both are stored normalized.
/// `parents` makes the vocabulary a DAG: several parents are allowed, cycles
/// are not. `aliases` and `parents` are kept sorted and free of duplicates
/// by every operation of the kernel; [`Folksonomy::from_parts`] restores that
/// order on tags built by hand.
#[derive(Debug, PartialEq, Eq)]
pub struct Tag {
    /// Stable identity.
    pub id: TagId,
    /// Preferred label, normalized.
    pub label: String,
    /// Alternative labels, normalized, sorted.
    pub aliases: Vec<String>,
    /// Broader tags, sorted by id.
    pub parents: Vec<TagId>,
}

/// What a tag holds, as values.
pub struct TagView {
    pub id: u64,
    pub label: Seq<char>,
    pub aliases: Seq<Seq<char>>,
    pub parents: Seq<u64>,
}

/// The characters of each label.
pub open spec fn labels_view(s: Seq<String>) -> Seq<Seq<char>> {
    s.map_values(|x: String| x@)
}

/// The number of each id.
pub open spec fn ids_view(s: Seq<TagId>) -> Seq<u64> {
    s.map_values(|t: TagId| t.0)
}

impl View for Tag {
    type V = TagView;

    open spec fn view(&self) -> TagView {
        TagView {
            id: self.id.0,
            label: self.label@,
            aliases: labels_view(self.aliases@),
            parents: ids_view(self.parents@),
        }
    }
}

impl Clone for Tag {
    fn clone(&self) -> (r: Self)
        ensures
            r@ == self@,
    {
        let aliases = self.aliases.clone();
        assert(aliases@ =~= self.aliases@);
        let parents = self.parents.clone();
        assert(parents@ =~= self.parents@);
        Tag { id: self.id, label: self.label.clone(), aliases, parents }
    }
}

/// The folksonomy atom: `(tagger, item, tag)` plus who may see it. The same
/// item may carry the same tag from many taggers; each is its own binding.
#[derive(Debug, PartialEq, Eq, PartialOrd, Ord, Hash)]
pub struct Binding {
    /// Bound item.
    pub item: ItemId,
    /// Bound tag.
    pub tag: TagId,
    /// Whose binding.
    pub tagger: ActorId,
    /// Who may see it.
    pub visibility: Visibility,
}

/// What a binding holds, as values.
pub struct BindingView {
    pub item: Seq<char>,
    pub tag: u64,
    pub tagger: Seq<char>,
    pub visibility: Visibility,
}

impl View for Binding {
    type V = BindingView;

    open spec fn view(&self) -> BindingView {
        BindingView {
            item: self.item@,
            tag: self.tag.0,
            tagger: self.tagger@,
            visibility: self.visibility,
        }
    }
}

impl Clone for Binding {
    fn clone(&self) -> (r: Self)
        ensures
            r == *self,
    {
        Binding {
            item: self.item.clone(),
            tag: self.tag,
            tagger: self.tagger.clone(),
            visibility: self.visibility,
        }
    }
}

/// Identity of a binding — everything but its visibility.
#[derive(Debug, PartialEq, Eq, PartialOrd, Ord, Hash)]
pub struct BindingKey {
    /// Bound item.
    pub item: ItemId,
    /// Bound tag.
    pub tag: TagId,
    /// Whose binding.
    pub tagger: ActorId,
}

impl Clone for BindingKey {
    fn clone(&self) -> (r: Self)
        ensures
            r == *self,
    {
        BindingKey { item: self.item.clone(), tag: self.tag, tagger: self.tagger.clone() }
    }
}

impl Binding {
    /// The binding's identity.
    pub fn key(&self) -> (k: BindingKey)
        ensures
            k.item@ == self.item@,
            k.tag == self.tag,
            k.tagger@ == self.tagger@,
    {
        BindingKey { item: self.item.clone(), tag: self.tag, tagger: self.tagger.clone() }
    }
}

/// A way a loaded state can violate the kernel's invariants.
#[derive(Debug, PartialEq, Eq)]
pub enum Defect {
    /// A tag lists a parent that does not exist.
    DanglingParent {
        /// The tag with the bad edge.
        child: TagId,
        /// The missing parent.
        parent: TagId,
    },
    /// These tags participate in at least one cycle.
    Cycle(Vec<TagId>),
    /// A label or alias is owned by more than one tag.
    DuplicateLabel(String),
    /// A binding references a tag that does not exist.
    DanglingBinding(Binding),
    /// `next_tag_id` is not greater than every existing id.
    IdCounterBehind,
}

/// A defect, as values.
pub enum DefectView {
    DanglingParent { child: u64, parent: u64 },
    Cycle(Seq<u64>),
    DuplicateLabel(Seq<char>),
    DanglingBinding(BindingView),
    IdCounterBehind,
}

impl View for Defect {
    type V = DefectView;

    open spec fn view(&self) -> DefectView {
        match self {
            Defect::DanglingParent { child, parent } => DefectView::DanglingParent {
                child: child.0,
                parent: parent.0,
            },
            Defect::Cycle(ids) => DefectView::Cycle(ids_view(ids@)),
            Defect::DuplicateLabel(l) => DefectView::DuplicateLabel(l@),
            Defect::DanglingBinding(b) => DefectView::DanglingBinding(b@),
            Defect::IdCounterBehind => DefectView::IdCounterBehind,
        }
    }
}

/// Each defect as values.
pub open spec fn defects_view(s: Seq<Defect>) -> Seq<DefectView> {
    s.map_values(|d: Defect| d@)
}

/// Full kernel state. Value semantics: `apply` never mutates its receiver.
///
/// `curators` is governance-as-data, owned and set by the shell that owns the
/// state. When non-empty, structural vocabulary edits require a curator;
/// defining a tag and tagging are always open. There is no action that
/// changes the curator list — that bootstrap rule is the shell's decision.
#[derive(Debug, PartialEq, Eq)]
pub struct Folksonomy {
    next_tag_id: u64,
    tags: Vec<Tag>,
    bindings: Vec<Binding>,
    curators: Vec<ActorId>,
}

/// What a folksonomy holds, as values: tags sorted by id, bindings sorted by
/// `(item, tag, tagger)`, curators sorted.
pub struct FolkView {
    pub next_tag_id: u64,
    pub tags: Seq<TagView>,
    pub bindings: Seq<BindingView>,
    pub curators: Seq<Seq<char>>,
}

impl View for Folksonomy {
    type V = FolkView;

    closed spec fn view(&self) -> FolkView {
        FolkView {
            next_tag_id: self.next_tag_id,
            tags: tags_view(self.tags@),
            bindings: bindings_view(self.bindings@),
            curators: actors_view(self.curators@),
        }
    }
}

/// Each tag as values.
pub open spec fn tags_view(s: Seq<Tag>) -> Seq<TagView> {
    s.map_values(|t: Tag| t@)
}

/// Each binding as values.
pub open spec fn bindings_view(s: Seq<Binding>) -> Seq<BindingView> {
    s.map_values(|b: Binding| b@)
}

/// The characters of each actor id.
pub open spec fn actors_view(s: Seq<ActorId>) -> Seq<Seq<char>> {
    s.map_values(|a: ActorId| a@)
}

/// Every tag but the one with this id.
pub open spec fn tag_other_than(id: u64) -> spec_fn(TagView) -> bool {
    |t: TagView| t.id != id
}

/// Every binding whose identity differs from `k`'s.
pub open spec fn key_other_than(k: BindingView) -> spec_fn(BindingView) -> bool {
    |b: BindingView| !same_key(b, k)
}

/// A binding identity, as a binding view (the visibility is irrelevant to
/// identity comparisons).
pub open spec fn probe(item: Seq<char>, tag: u64, tagger: Seq<char>) -> BindingView {
    BindingView { item, tag, tagger, visibility: Visibility::Public }
}

/// Tag ids in numeric order.
pub open spec fn id_lt() -> spec_fn(u64, u64) -> bool {
    |a: u64, b: u64| a < b
}

/// Labels and actor ids in [`chars_lt`] order.
pub open spec fn text_lt() -> spec_fn(Seq<char>, Seq<char>) -> bool {
    |a: Seq<char>, b: Seq<char>| chars_lt(a, b)
}

/// Tags by id.
pub open spec fn tag_lt() -> spec_fn(TagView, TagView) -> bool {
    |a: TagView, b: TagView| a.id < b.id
}

/// Whether binding `a`'s identity `(item, tag, tagger)` comes before `b`'s:
/// by item, then tag, then tagger.
pub open spec fn key_lt(a: BindingView, b: BindingView) -> bool {
    ||| chars_lt(a.item, b.item)
    ||| a.item == b.item && a.tag < b.tag
    ||| a.item == b.item && a.tag == b.tag && chars_lt(a.tagger, b.tagger)
}

/// Bindings by identity.
pub open spec fn binding_lt() -> spec_fn(BindingView, BindingView) -> bool {
    |a: BindingView, b: BindingView| key_lt(a, b)
}

/// Whether two bindings have the same identity.
pub open spec fn same_key(a: BindingView, b: BindingView) -> bool {
    a.item == b.item && a.tag == b.tag && a.tagger == b.tagger
}

impl TagView {
    /// Aliases and parents are sorted and free of duplicates.
    pub open spec fn wf(self) -> bool {
        &&& sorted_by(self.aliases, text_lt())
        &&& sorted_by(self.parents, id_lt())
    }
}

impl FolkView {
    /// The shape every state has: tags sorted by id, bindings by identity,
    /// curators by characters, each tag's sets sorted.
    pub open spec fn wf(self) -> bool {
        &&& sorted_by(self.tags, tag_lt())
        &&& forall|i: int| 0 <= i < self.tags.len() ==> (#[trigger] self.tags[i]).wf()
        &&& sorted_by(self.bindings, binding_lt())
        &&& sorted_by(self.curators, text_lt())
    }

    /// The ids of the tags, in order.
    pub open spec fn tag_ids(self) -> Seq<u64> {
        self.tags.map_values(|t: TagView| t.id)
    }

    /// Whether a tag with this id exists.
    pub open spec fn has_tag(self, id: u64) -> bool {
        exists|i: int| 0 <= i < self.tags.len() && self.tags[i].id == id
    }

    /// The tag with this id (meaningful when it exists).
    pub open spec fn tag(self, id: u64) -> TagView {
        self.tags[self.tag_index(id)]
    }

    /// The position of the tag with this id (meaningful when it exists).
    pub open spec fn tag_index(self, id: u64) -> int {
        choose|i: int| 0 <= i < self.tags.len() && self.tags[i].id == id
    }

    /// Whether an actor is a curator.
    pub open spec fn is_curator(self, actor: Seq<char>) -> bool {
        self.curators.contains(actor)
    }

    /// Structural edits are open when there are no curators, else curated.
    pub open spec fn may_edit_structure(self, actor: Seq<char>) -> bool {
        self.curators.len() == 0 || self.is_curator(actor)
    }
}

impl Folksonomy {
    /// The shape every state has; see [`FolkView::wf`].
    pub open spec fn wf(&self) -> bool {
        self@.wf()
    }
}

/// Tag ids in numeric order form a strict weak order.
pub proof fn lemma_id_lt_order()
    ensures
        strict_weak(id_lt()),
{
    reveal(strict_weak);
}

/// Labels in character order form a strict weak order.
pub proof fn lemma_text_lt_order()
    ensures
        strict_weak(text_lt()),
{
    reveal(strict_weak);
    lemma_chars_order();
    let lt = text_lt();
    assert forall|a: Seq<char>, b: Seq<char>, c: Seq<char>| #[trigger] lt(a, c) implies lt(a, b)
        || #[trigger] lt(b, c) by {
        if a != b && !lt(a, b) {
            assert(chars_lt(b, a));
            assert(chars_lt(b, c));
        }
    }
}

/// Tags by id form a strict weak order.
pub proof fn lemma_tag_lt_order()
    ensures
        strict_weak(tag_lt()),
{
    reveal(strict_weak);
}

/// Bindings by identity form a strict weak order.
pub proof fn lemma_binding_lt_order()
    ensures
        strict_weak(binding_lt()),
{
    reveal(strict_weak);
    lemma_chars_order();
    let lt = binding_lt();
    assert forall|a: BindingView, b: BindingView, c: BindingView| #[trigger] lt(a, b) && #[trigger] lt(
        b,
        c,
    ) implies lt(a, c) by {
    }
    assert forall|a: BindingView, b: BindingView, c: BindingView| #[trigger] lt(a, c) implies lt(a, b)
        || #[trigger] lt(b, c) by {
        if !lt(a, b) && !lt(b, c) {
            if a.item != b.item {
                assert(chars_lt(b.item, a.item));
            }
            if b.item != c.item {
                assert(chars_lt(c.item, b.item));
            }
            if a.item == b.item && a.tag == b.tag && a.tagger != b.tagger {
                assert(chars_lt(b.tagger, a.tagger));
            }
            if b.item == c.item && b.tag == c.tag && b.tagger != c.tagger {
                assert(chars_lt(c.tagger, b.tagger));
            }
        }
    }
}

/// Two bindings unordered by identity have the same identity.
pub proof fn lemma_binding_unordered_same(a: BindingView, b: BindingView)
    requires
        !key_lt(a, b),
        !key_lt(b, a),
    ensures
        same_key(a, b),
{
    lemma_chars_order();
}

} // verus!
