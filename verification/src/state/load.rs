//! Loading a state from its parts, and checking a loaded state against the
//! kernel's invariants.

use vstd::prelude::*;

use super::collections::{
    actors_insert, bindings_put, ids_insert, labels_insert, tags_find, tags_put,
};
use super::graph::cyclic_in;
use super::{
    actors_view, binding_lt, bindings_view, defects_view, id_lt, ids_view, labels_view, tag_lt,
    tags_view, text_lt, Binding, BindingView, Defect, DefectView, FolkView, Folksonomy, Tag,
    TagView,
};
use crate::ids::{ActorId, TagId};
use crate::sorted::{lemma_set_of_push, set_of, sorted_by};

verus! {

/// A tag as the kernel keeps it: aliases and parents as sorted sets, later
/// duplicates dropped.
pub open spec fn tidy(t: TagView) -> TagView {
    TagView {
        id: t.id,
        label: t.label,
        aliases: set_of(t.aliases, text_lt()),
        parents: set_of(t.parents, id_lt()),
    }
}

/// Each tag tidied.
pub open spec fn tidy_all(s: Seq<TagView>) -> Seq<TagView> {
    s.map_values(|t: TagView| tidy(t))
}

/// A tag with its aliases and parents as sorted sets.
fn tidy_tag(t: &Tag) -> (r: Tag)
    ensures
        r@ == tidy(t@),
        r@.wf(),
{
    let ghost av = labels_view(t.aliases@);
    let mut aliases: Vec<String> = Vec::new();
    let mut i: usize = 0;
    proof {
        assert(labels_view(aliases@) =~= Seq::<Seq<char>>::empty());
        assert(av.take(0) =~= Seq::<Seq<char>>::empty());
    }
    while i < t.aliases.len()
        invariant
            av == labels_view(t.aliases@),
            i <= av.len(),
            labels_view(aliases@) == set_of(av.take(i as int), text_lt()),
            sorted_by(labels_view(aliases@), text_lt()),
        decreases av.len() - i,
    {
        proof {
            assert(av.take(i + 1) =~= av.take(i as int).push(av[i as int]));
            lemma_set_of_push(av.take(i as int), av[i as int], text_lt());
        }
        labels_insert(&mut aliases, t.aliases[i].clone());
        i = i + 1;
    }
    let ghost pv = ids_view(t.parents@);
    let mut parents: Vec<TagId> = Vec::new();
    let mut j: usize = 0;
    proof {
        assert(av.take(i as int) =~= av);
        assert(ids_view(parents@) =~= Seq::<u64>::empty());
        assert(pv.take(0) =~= Seq::<u64>::empty());
    }
    while j < t.parents.len()
        invariant
            pv == ids_view(t.parents@),
            j <= pv.len(),
            ids_view(parents@) == set_of(pv.take(j as int), id_lt()),
            sorted_by(ids_view(parents@), id_lt()),
        decreases pv.len() - j,
    {
        proof {
            assert(pv.take(j + 1) =~= pv.take(j as int).push(pv[j as int]));
            lemma_set_of_push(pv.take(j as int), pv[j as int], id_lt());
        }
        ids_insert(&mut parents, t.parents[j]);
        j = j + 1;
    }
    proof {
        assert(pv.take(j as int) =~= pv);
    }
    Tag { id: t.id, label: t.label.clone(), aliases, parents }
}

impl Folksonomy {
    /// Reconstruct a state from its parts, e.g. after deserializing a dump.
    /// Tags are keyed by id, bindings by identity, curators by name; of two
    /// parts with the same key the later wins. Run [`Folksonomy::validate`]
    /// on the result before trusting it.
    pub fn from_parts(
        next_tag_id: u64,
        tags: Vec<Tag>,
        bindings: Vec<Binding>,
        curators: Vec<ActorId>,
    ) -> (r: Folksonomy)
        ensures
            r.wf(),
            r@.next_tag_id == next_tag_id,
            r@.tags == set_of(tidy_all(tags_view(tags@)), tag_lt()),
            r@.bindings == set_of(bindings_view(bindings@), binding_lt()),
            r@.curators == set_of(actors_view(curators@), text_lt()),
    {
        let ghost tv = tidy_all(tags_view(tags@));
        let mut ts: Vec<Tag> = Vec::new();
        let mut i: usize = 0;
        proof {
            assert(tags_view(ts@) =~= Seq::<TagView>::empty());
            assert(tv.take(0) =~= Seq::<TagView>::empty());
        }
        while i < tags.len()
            invariant
                tv == tidy_all(tags_view(tags@)),
                i <= tags@.len(),
                tags_view(ts@) == set_of(tv.take(i as int), tag_lt()),
                sorted_by(tags_view(ts@), tag_lt()),
                forall|k: int| 0 <= k < ts@.len() ==> (#[trigger] tags_view(ts@)[k]).wf(),
            decreases tags@.len() - i,
        {
            let t = tidy_tag(&tags[i]);
            proof {
                assert(tv.take(i + 1) =~= tv.take(i as int).push(tv[i as int]));
                lemma_set_of_push(tv.take(i as int), tv[i as int], tag_lt());
            }
            let ghost tw = t@;
            tags_put(&mut ts, t);
            proof {
                assert forall|k: int| 0 <= k < ts@.len() implies (#[trigger] tags_view(ts@)[k]).wf() by {
                    if tags_view(ts@)[k] != tw {
                        let old_ts = set_of(tv.take(i as int), tag_lt());
                        let m = choose|m: int| 0 <= m < old_ts.len() && old_ts[m] == tags_view(ts@)[k];
                    }
                }
            }
            i = i + 1;
        }
        proof {
            assert(tv.take(i as int) =~= tv);
        }
        let ghost bv = bindings_view(bindings@);
        let mut bs: Vec<Binding> = Vec::new();
        let mut j: usize = 0;
        proof {
            assert(bindings_view(bs@) =~= Seq::<BindingView>::empty());
            assert(bv.take(0) =~= Seq::<BindingView>::empty());
        }
        while j < bindings.len()
            invariant
                bv == bindings_view(bindings@),
                j <= bv.len(),
                bindings_view(bs@) == set_of(bv.take(j as int), binding_lt()),
                sorted_by(bindings_view(bs@), binding_lt()),
            decreases bv.len() - j,
        {
            proof {
                assert(bv.take(j + 1) =~= bv.take(j as int).push(bv[j as int]));
                lemma_set_of_push(bv.take(j as int), bv[j as int], binding_lt());
            }
            bindings_put(&mut bs, bindings[j].clone());
            j = j + 1;
        }
        proof {
            assert(bv.take(j as int) =~= bv);
        }
        let ghost cv = actors_view(curators@);
        let mut cs: Vec<ActorId> = Vec::new();
        let mut k: usize = 0;
        proof {
            assert(actors_view(cs@) =~= Seq::<Seq<char>>::empty());
            assert(cv.take(0) =~= Seq::<Seq<char>>::empty());
        }
        while k < curators.len()
            invariant
                cv == actors_view(curators@),
                k <= cv.len(),
                actors_view(cs@) == set_of(cv.take(k as int), text_lt()),
                sorted_by(actors_view(cs@), text_lt()),
            decreases cv.len() - k,
        {
            proof {
                assert(cv.take(k + 1) =~= cv.take(k as int).push(cv[k as int]));
                lemma_set_of_push(cv.take(k as int), cv[k as int], text_lt());
            }
            actors_insert(&mut cs, curators[k].clone());
            k = k + 1;
        }
        proof {
            assert(cv.take(k as int) =~= cv);
        }
        Folksonomy { next_tag_id, tags: ts, bindings: bs, curators: cs }
    }
}


// ---------------------------------------------------------------------------
// Validation.

/// Tag ids that name no tag.
pub open spec fn missing_tag(v: FolkView) -> spec_fn(u64) -> bool {
    |p: u64| !v.has_tag(p)
}

/// A dangling parent of the tag `child`, for each parent.
pub open spec fn dangling_of(child: u64, ps: Seq<u64>) -> Seq<DefectView> {
    ps.map_values(|p: u64| DefectView::DanglingParent { child, parent: p })
}

/// For each tag in turn, each parent that names no tag.
pub open spec fn dangling_parents(v: FolkView, tags: Seq<TagView>) -> Seq<DefectView>
    decreases tags.len(),
{
    if tags.len() == 0 {
        Seq::empty()
    } else {
        dangling_parents(v, tags.drop_last()) + dangling_of(
            tags.last().id,
            tags.last().parents.filter(missing_tag(v)),
        )
    }
}

/// One defect listing the tags on a cycle, if there are any.
pub open spec fn cycle_defects(v: FolkView) -> Seq<DefectView> {
    let c = v.tag_ids().filter(cyclic_in(v));
    if c.len() > 0 {
        seq![DefectView::Cycle(c)]
    } else {
        Seq::empty()
    }
}

/// Every label and alias, tag by tag: the label, then the aliases.
pub open spec fn label_pool(tags: Seq<TagView>) -> Seq<Seq<char>>
    decreases tags.len(),
{
    if tags.len() == 0 {
        Seq::empty()
    } else {
        label_pool(tags.drop_last()) + seq![tags.last().label] + tags.last().aliases
    }
}

/// Exactly this label.
pub open spec fn equal_to(l: Seq<char>) -> spec_fn(Seq<char>) -> bool {
    |m: Seq<char>| m == l
}

/// Labels that occur more than once in the pool.
pub open spec fn repeated(pool: Seq<Seq<char>>) -> spec_fn(Seq<char>) -> bool {
    |l: Seq<char>| pool.filter(equal_to(l)).len() > 1
}

/// The labels owned more than once, sorted bytewise and distinct.
pub open spec fn duplicate_labels(v: FolkView) -> Seq<Seq<char>> {
    let pool = label_pool(v.tags);
    set_of(pool.filter(repeated(pool)), text_lt())
}

/// A duplicate-label defect for each label.
pub open spec fn label_defects(s: Seq<Seq<char>>) -> Seq<DefectView> {
    s.map_values(|l: Seq<char>| DefectView::DuplicateLabel(l))
}

/// A dangling-binding defect for each binding.
pub open spec fn binding_defects(s: Seq<BindingView>) -> Seq<DefectView> {
    s.map_values(|b: BindingView| DefectView::DanglingBinding(b))
}

/// Bindings whose tag does not exist.
pub open spec fn dangling_binding(v: FolkView) -> spec_fn(BindingView) -> bool {
    |b: BindingView| !v.has_tag(b.tag)
}

/// One defect if some tag's id is not below the id counter. Tags are sorted
/// by id, so the last tag has the largest.
pub open spec fn counter_defects(v: FolkView) -> Seq<DefectView> {
    if v.tags.len() > 0 && v.tags.last().id >= v.next_tag_id {
        seq![DefectView::IdCounterBehind]
    } else {
        Seq::empty()
    }
}

/// Every defect of a state, in the order they are reported: dangling
/// parents, cycles, duplicate labels, dangling bindings, a lagging id
/// counter.
pub open spec fn defects(v: FolkView) -> Seq<DefectView> {
    dangling_parents(v, v.tags) + cycle_defects(v) + label_defects(duplicate_labels(v))
        + binding_defects(v.bindings.filter(dangling_binding(v))) + counter_defects(v)
}

/// Pushes each defect of a list onto another.
fn append_defects(out: &mut Vec<Defect>, more: Vec<Defect>)
    ensures
        defects_view(final(out)@) == defects_view(old(out)@) + defects_view(more@),
{
    let mut i: usize = 0;
    let ghost start = defects_view(out@);
    let mut more = more;
    let ghost mv = defects_view(more@);
    proof {
        assert(start + mv.take(0) =~= start);
    }
    while i < more.len()
        invariant
            mv == defects_view(more@),
            i <= mv.len(),
            defects_view(out@) == start + mv.take(i as int),
        decreases mv.len() - i,
    {
        let d = more[i].clone();
        let ghost before = defects_view(out@);
        out.push(d);
        proof {
            assert(defects_view(out@) =~= before.push(mv[i as int]));
            assert(mv.take(i + 1) =~= mv.take(i as int).push(mv[i as int]));
        }
        i = i + 1;
    }
    proof {
        assert(mv.take(i as int) =~= mv);
    }
}

impl Clone for Defect {
    fn clone(&self) -> (r: Defect)
        ensures
            r@ == self@,
    {
        match self {
            Defect::DanglingParent { child, parent } => Defect::DanglingParent {
                child: *child,
                parent: *parent,
            },
            Defect::Cycle(ids) => {
                let c = ids.clone();
                assert(c@ =~= ids@);
                Defect::Cycle(c)
            },
            Defect::DuplicateLabel(l) => Defect::DuplicateLabel(l.clone()),
            Defect::DanglingBinding(b) => Defect::DanglingBinding(b.clone()),
            Defect::IdCounterBehind => Defect::IdCounterBehind,
        }
    }
}

impl Folksonomy {
    /// Every parent that names no tag, tag by tag.
    fn dangling_parents(&self) -> (r: Vec<Defect>)
        ensures
            defects_view(r@) == dangling_parents(self@, self@.tags),
    {
        let ghost v = self@;
        let mut out: Vec<Defect> = Vec::new();
        let mut i: usize = 0;
        proof {
            assert(defects_view(out@) =~= Seq::<DefectView>::empty());
            assert(v.tags.take(0) =~= Seq::<TagView>::empty());
        }
        while i < self.tags.len()
            invariant
                v == self@,
                i <= v.tags.len(),
                defects_view(out@) == dangling_parents(v, v.tags.take(i as int)),
            decreases v.tags.len() - i,
        {
            let t = &self.tags[i];
            let ghost ps = ids_view(t.parents@);
            let ghost base = defects_view(out@);
            let mut k: usize = 0;
            proof {
                assert(ps.take(0).filter(missing_tag(v)) =~= Seq::<u64>::empty()) by {
                    reveal(Seq::filter);
                }
                assert(base + dangling_of(t.id.0, ps.take(0).filter(missing_tag(v))) =~= base);
            }
            while k < t.parents.len()
                invariant
                    v == self@,
                    i < v.tags.len(),
                    t@ == v.tags[i as int],
                    ps == ids_view(t.parents@),
                    k <= ps.len(),
                    defects_view(out@) == base + dangling_of(
                        t.id.0,
                        ps.take(k as int).filter(missing_tag(v)),
                    ),
                decreases ps.len() - k,
            {
                let p = t.parents[k];
                proof {
                    assert(ps.take(k + 1) =~= ps.take(k as int).push(p.0));
                    ps.take(k as int).lemma_filter_push(p.0, missing_tag(v));
                }
                if tags_find(&self.tags, p.0).is_none() {
                    let ghost before = defects_view(out@);
                    out.push(Defect::DanglingParent { child: t.id, parent: p });
                    proof {
                        let f = ps.take(k as int).filter(missing_tag(v));
                        assert(!v.has_tag(p.0));
                        assert(dangling_of(t.id.0, f.push(p.0)) =~= dangling_of(t.id.0, f).push(
                            DefectView::DanglingParent { child: t.id.0, parent: p.0 },
                        ));
                        assert(defects_view(out@) =~= before.push(
                            DefectView::DanglingParent { child: t.id.0, parent: p.0 },
                        ));
                    }
                } else {
                    proof {
                        let j = choose|j: int| 0 <= j < v.tags.len() && v.tags[j].id == p.0;
                    }
                }
                k = k + 1;
            }
            proof {
                assert(ps.take(k as int) =~= ps);
                assert(v.tags.take(i + 1).drop_last() =~= v.tags.take(i as int));
                assert(v.tags.take(i + 1).last() == v.tags[i as int]);
            }
            i = i + 1;
        }
        proof {
            assert(v.tags.take(i as int) =~= v.tags);
        }
        out
    }
}


/// Whether the label occurs more than once in the pool.
fn occurs_twice(pool: &Vec<String>, l: &String) -> (r: bool)
    ensures
        r == repeated(labels_view(pool@))(l@),
{
    let ghost pv = labels_view(pool@);
    let mut n: usize = 0;
    let mut i: usize = 0;
    proof {
        assert(pv.take(0).filter(equal_to(l@)) =~= Seq::<Seq<char>>::empty()) by {
            reveal(Seq::filter);
        }
    }
    while i < pool.len()
        invariant
            pv == labels_view(pool@),
            i <= pv.len(),
            n == pv.take(i as int).filter(equal_to(l@)).len(),
            n <= i,
        decreases pv.len() - i,
    {
        proof {
            assert(pv.take(i + 1) =~= pv.take(i as int).push(pv[i as int]));
            pv.take(i as int).lemma_filter_len_push(equal_to(l@), pv[i as int]);
        }
        if pool[i] == *l {
            n = n + 1;
        }
        i = i + 1;
    }
    proof {
        assert(pv.take(i as int) =~= pv);
    }
    n > 1
}

impl Folksonomy {
    /// Every label and alias, tag by tag.
    fn label_pool(&self) -> (r: Vec<String>)
        ensures
            labels_view(r@) == label_pool(self@.tags),
    {
        let ghost v = self@;
        let mut out: Vec<String> = Vec::new();
        let mut i: usize = 0;
        proof {
            assert(labels_view(out@) =~= Seq::<Seq<char>>::empty());
            assert(v.tags.take(0) =~= Seq::<TagView>::empty());
        }
        while i < self.tags.len()
            invariant
                v == self@,
                i <= v.tags.len(),
                labels_view(out@) == label_pool(v.tags.take(i as int)),
            decreases v.tags.len() - i,
        {
            let t = &self.tags[i];
            let ghost base = labels_view(out@);
            out.push(t.label.clone());
            let ghost av = labels_view(t.aliases@);
            let mut k: usize = 0;
            proof {
                assert(labels_view(out@) =~= base + seq![t.label@] + av.take(0));
            }
            while k < t.aliases.len()
                invariant
                    av == labels_view(t.aliases@),
                    k <= av.len(),
                    labels_view(out@) == base + seq![t.label@] + av.take(k as int),
                decreases av.len() - k,
            {
                let ghost before = labels_view(out@);
                out.push(t.aliases[k].clone());
                proof {
                    assert(labels_view(out@) =~= before.push(av[k as int]));
                    assert(av.take(k + 1) =~= av.take(k as int).push(av[k as int]));
                }
                k = k + 1;
            }
            proof {
                assert(av.take(k as int) =~= av);
                assert(v.tags.take(i + 1).drop_last() =~= v.tags.take(i as int));
                assert(v.tags.take(i + 1).last() == v.tags[i as int]);
            }
            i = i + 1;
        }
        proof {
            assert(v.tags.take(i as int) =~= v.tags);
        }
        out
    }

    /// The labels owned more than once, sorted.
    fn duplicate_labels(&self) -> (r: Vec<Defect>)
        ensures
            defects_view(r@) == label_defects(duplicate_labels(self@)),
    {
        let pool = self.label_pool();
        let ghost pv = labels_view(pool@);
        let ghost rep = repeated(pv);
        let mut dups: Vec<String> = Vec::new();
        let mut i: usize = 0;
        proof {
            assert(labels_view(dups@) =~= Seq::<Seq<char>>::empty());
            assert(pv.take(0).filter(rep) =~= Seq::<Seq<char>>::empty()) by {
                reveal(Seq::filter);
            }
        }
        while i < pool.len()
            invariant
                pv == labels_view(pool@),
                rep == repeated(pv),
                i <= pv.len(),
                labels_view(dups@) == set_of(pv.take(i as int).filter(rep), text_lt()),
                sorted_by(labels_view(dups@), text_lt()),
            decreases pv.len() - i,
        {
            proof {
                assert(pv.take(i + 1) =~= pv.take(i as int).push(pv[i as int]));
                pv.take(i as int).lemma_filter_push(pv[i as int], rep);
            }
            if occurs_twice(&pool, &pool[i]) {
                proof {
                    lemma_set_of_push(pv.take(i as int).filter(rep), pv[i as int], text_lt());
                }
                labels_insert(&mut dups, pool[i].clone());
            }
            i = i + 1;
        }
        proof {
            assert(pv.take(i as int) =~= pv);
        }
        let ghost dv = labels_view(dups@);
        let mut out: Vec<Defect> = Vec::new();
        let mut j: usize = 0;
        proof {
            assert(defects_view(out@) =~= label_defects(dv.take(0)));
        }
        while j < dups.len()
            invariant
                dv == labels_view(dups@),
                j <= dv.len(),
                defects_view(out@) == label_defects(dv.take(j as int)),
            decreases dv.len() - j,
        {
            let ghost before = defects_view(out@);
            out.push(Defect::DuplicateLabel(dups[j].clone()));
            proof {
                assert(dv.take(j + 1) =~= dv.take(j as int).push(dv[j as int]));
                assert(defects_view(out@) =~= before.push(DefectView::DuplicateLabel(dv[j as int])));
                assert(label_defects(dv.take(j + 1)) =~= label_defects(dv.take(j as int)).push(
                    DefectView::DuplicateLabel(dv[j as int]),
                ));
            }
            j = j + 1;
        }
        proof {
            assert(dv.take(j as int) =~= dv);
        }
        out
    }

    /// Every binding whose tag does not exist.
    fn dangling_bindings(&self) -> (r: Vec<Defect>)
        ensures
            defects_view(r@) == binding_defects(self@.bindings.filter(dangling_binding(self@))),
    {
        let ghost v = self@;
        let ghost p = dangling_binding(v);
        let mut out: Vec<Defect> = Vec::new();
        let mut i: usize = 0;
        proof {
            assert(v.bindings.take(0).filter(p) =~= Seq::<BindingView>::empty()) by {
                reveal(Seq::filter);
            }
            assert(defects_view(out@) =~= binding_defects(v.bindings.take(0).filter(p)));
        }
        while i < self.bindings.len()
            invariant
                v == self@,
                p == dangling_binding(v),
                i <= v.bindings.len(),
                defects_view(out@) == binding_defects(v.bindings.take(i as int).filter(p)),
            decreases v.bindings.len() - i,
        {
            let ghost pre = v.bindings.take(i as int);
            let ghost b = v.bindings[i as int];
            proof {
                assert(v.bindings.take(i + 1) =~= pre.push(b));
                pre.lemma_filter_push(b, p);
            }
            if tags_find(&self.tags, self.bindings[i].tag.0).is_none() {
                let ghost before = defects_view(out@);
                out.push(Defect::DanglingBinding(self.bindings[i].clone()));
                proof {
                    assert(p(b));
                    assert(defects_view(out@) =~= before.push(DefectView::DanglingBinding(b)));
                    assert(binding_defects(pre.filter(p).push(b)) =~= binding_defects(
                        pre.filter(p),
                    ).push(DefectView::DanglingBinding(b)));
                }
            } else {
                proof {
                    let j = choose|j: int| 0 <= j < v.tags.len() && v.tags[j].id == b.tag;
                }
            }
            i = i + 1;
        }
        proof {
            assert(v.bindings.take(i as int) =~= v.bindings);
        }
        out
    }

    /// Check a state the shell loaded from somewhere against the kernel's
    /// invariants: every defect, in the order of [`defects`]. Every state
    /// that `apply` produces from a state without defects has none.
    pub fn validate(&self) -> (r: Vec<Defect>)
        requires
            self.wf(),
        ensures
            defects_view(r@) == defects(self@),
    {
        let ghost v = self@;
        let mut out = self.dangling_parents();
        let cyclic = self.cyclic_tags();
        if cyclic.len() > 0 {
            let ghost before = defects_view(out@);
            out.push(Defect::Cycle(cyclic));
            proof {
                assert(defects_view(out@) =~= before + cycle_defects(v));
            }
        } else {
            proof {
                assert(defects_view(out@) =~= defects_view(out@) + cycle_defects(v));
            }
        }
        append_defects(&mut out, self.duplicate_labels());
        append_defects(&mut out, self.dangling_bindings());
        let n = self.tags.len();
        if n > 0 && self.tags[n - 1].id.0 >= self.next_tag_id {
            let ghost before = defects_view(out@);
            out.push(Defect::IdCounterBehind);
            proof {
                assert(defects_view(out@) =~= before + counter_defects(v));
            }
        } else {
            proof {
                assert(defects_view(out@) =~= defects_view(out@) + counter_defects(v));
            }
        }
        out
    }
}

} // verus!
