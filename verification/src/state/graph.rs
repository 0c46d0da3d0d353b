//! The vocabulary as a graph: parent edges, transitive closures, cycles.

use vstd::prelude::*;

use super::collections::{ids_contains, ids_insert, tags_find, lemma_tag_unique};
use super::{id_lt, ids_view, lemma_id_lt_order, FolkView, Folksonomy, TagView};
use crate::error::FolkError;
use crate::ids::TagId;
use crate::sorted::{lemma_distinct_within, sorted_by};

verus! {

/// `b` is listed as a parent of the tag `a`.
pub open spec fn parent_edge(v: FolkView, a: u64, b: u64) -> bool {
    exists|i: int| 0 <= i < v.tags.len() && v.tags[i].id == a && v.tags[i].parents.contains(b)
}

/// One step in a direction: upward from a tag to a parent, or downward from
/// a tag to a tag that lists it as a parent.
pub open spec fn step(v: FolkView, up: bool, a: u64, b: u64) -> bool {
    if up {
        parent_edge(v, a, b)
    } else {
        parent_edge(v, b, a)
    }
}

/// A walk of at least one step in a direction.
pub open spec fn is_walk(v: FolkView, up: bool, p: Seq<u64>) -> bool {
    &&& p.len() >= 2
    &&& forall|k: int| 0 <= k < p.len() - 1 ==> #[trigger] step(v, up, p[k], p[k + 1])
}

/// `b` is reachable from `a` in one or more steps in a direction. Upward,
/// these are `a`'s ancestors; downward, its descendants.
pub open spec fn reaches(v: FolkView, up: bool, a: u64, b: u64) -> bool {
    exists|p: Seq<u64>| #[trigger] is_walk(v, up, p) && p[0] == a && p.last() == b
}

/// The tag is its own ancestor: it lies on a cycle.
pub open spec fn on_cycle(v: FolkView, t: u64) -> bool {
    reaches(v, true, t, t)
}

/// Some tag lies on a cycle.
pub open spec fn has_cycle(v: FolkView) -> bool {
    exists|i: int| 0 <= i < v.tags.len() && on_cycle(v, #[trigger] v.tags[i].id)
}

/// Every parent list, end to end.
pub open spec fn parents_pool(tags: Seq<TagView>) -> Seq<u64>
    decreases tags.len(),
{
    if tags.len() == 0 {
        Seq::empty()
    } else {
        parents_pool(tags.drop_last()) + tags.last().parents
    }
}

/// Every parent of every tag is in the pool.
pub proof fn lemma_parents_pool(tags: Seq<TagView>, i: int, b: u64)
    requires
        0 <= i < tags.len(),
        tags[i].parents.contains(b),
    ensures
        parents_pool(tags).contains(b),
    decreases tags.len(),
{
    let rest = tags.drop_last();
    if i < tags.len() - 1 {
        assert(rest[i] == tags[i]);
        lemma_parents_pool(rest, i, b);
        let k = choose|k: int| 0 <= k < parents_pool(rest).len() && parents_pool(rest)[k] == b;
        assert((parents_pool(rest) + tags.last().parents)[k] == b);
    } else {
        let k = choose|k: int| 0 <= k < tags[i].parents.len() && tags[i].parents[k] == b;
        assert((parents_pool(rest) + tags.last().parents)[parents_pool(rest).len() + k] == b);
    }
}

/// Where every step lands: upward on a listed parent, downward on a tag.
pub open spec fn landing_pool(v: FolkView, up: bool) -> Seq<u64> {
    if up {
        parents_pool(v.tags)
    } else {
        v.tag_ids()
    }
}

/// Every step lands in the pool.
pub proof fn lemma_landing(v: FolkView, up: bool, a: u64, b: u64)
    requires
        step(v, up, a, b),
    ensures
        landing_pool(v, up).contains(b),
{
    if up {
        let i = choose|i: int|
            0 <= i < v.tags.len() && v.tags[i].id == a && v.tags[i].parents.contains(b);
        lemma_parents_pool(v.tags, i, b);
    } else {
        let i = choose|i: int|
            0 <= i < v.tags.len() && v.tags[i].id == b && v.tags[i].parents.contains(a);
        assert(v.tag_ids()[i] == b);
    }
}

/// In a sorted id list, distinct positions hold distinct ids.
pub proof fn lemma_sorted_ids_distinct(s: Seq<u64>)
    requires
        sorted_by(s, id_lt()),
    ensures
        s.no_duplicates(),
{
    assert forall|i: int, j: int| 0 <= i < s.len() && 0 <= j < s.len() && i != j implies s[i]
        != s[j] by {
        if i < j {
            assert(id_lt()(s[i], s[j]));
        } else {
            assert(id_lt()(s[j], s[i]));
        }
    }
}

/// Extending a walk by one step.
pub proof fn lemma_walk_push(v: FolkView, up: bool, p: Seq<u64>, b: u64)
    requires
        is_walk(v, up, p),
        step(v, up, p.last(), b),
    ensures
        is_walk(v, up, p.push(b)),
        p.push(b)[0] == p[0],
        p.push(b).last() == b,
{
    let q = p.push(b);
    assert forall|k: int| 0 <= k < q.len() - 1 implies #[trigger] step(v, up, q[k], q[k + 1]) by {
        if k < p.len() - 1 {
            assert(q[k] == p[k] && q[k + 1] == p[k + 1]);
        } else {
            assert(q[k] == p.last());
        }
    }
}

/// A single step is a walk.
pub proof fn lemma_walk_one(v: FolkView, up: bool, a: u64, b: u64)
    requires
        step(v, up, a, b),
    ensures
        reaches(v, up, a, b),
{
    let p = seq![a, b];
    assert(is_walk(v, up, p));
}

impl Folksonomy {
    /// The tags one step away from `t` in a direction: its parents (upward),
    /// or the tags that list it as a parent (downward), sorted.
    pub(crate) fn neighbours(&self, t: u64, up: bool) -> (r: Vec<TagId>)
        requires
            self.wf(),
        ensures
            sorted_by(ids_view(r@), id_lt()),
            forall|b: u64| ids_view(r@).contains(b) <==> step(self@, up, t, b),
    {
        let ghost v = self@;
        if up {
            match tags_find(&self.tags, t) {
                Some(i) => {
                    let ps = self.tags[i].parents.clone();
                    proof {
                        assert(ids_view(ps@) =~= v.tags[i as int].parents);
                        assert(v.tags[i as int].wf());
                        assert forall|b: u64| ids_view(ps@).contains(b) <==> step(v, up, t, b) by {
                            if step(v, up, t, b) {
                                let j = choose|j: int|
                                    0 <= j < v.tags.len() && v.tags[j].id == t
                                        && v.tags[j].parents.contains(b);
                                lemma_tag_unique(v.tags, i as int, j);
                            }
                        }
                    }
                    ps
                },
                None => {
                    let r: Vec<TagId> = Vec::new();
                    proof {
                        assert(ids_view(r@) =~= Seq::<u64>::empty());
                    }
                    r
                },
            }
        } else {
            let mut r: Vec<TagId> = Vec::new();
            let mut i: usize = 0;
            proof {
                assert(ids_view(r@) =~= Seq::<u64>::empty());
            }
            while i < self.tags.len()
                invariant
                    i <= self.tags@.len(),
                    v == self@,
                    v.wf(),
                    !up,
                    sorted_by(ids_view(r@), id_lt()),
                    forall|j: int| 0 <= j < ids_view(r@).len() ==> ids_view(r@)[j] < (if i
                        < self.tags@.len() {
                        v.tags[i as int].id as int
                    } else {
                        u64::MAX as int + 1
                    }),
                    forall|b: u64|
                        ids_view(r@).contains(b) <==> exists|j: int|
                            0 <= j < i && v.tags[j].id == b && v.tags[j].parents.contains(t),
                decreases self.tags@.len() - i,
            {
                let tagi = &self.tags[i];
                if ids_contains(&tagi.parents, t) {
                    let ghost old_r = ids_view(r@);
                    r.push(tagi.id);
                    proof {
                        assert(ids_view(r@) =~= old_r.push(v.tags[i as int].id));
                        assert forall|b: u64| ids_view(r@).contains(b) <==> exists|j: int|
                            0 <= j < i + 1 && v.tags[j].id == b && v.tags[j].parents.contains(t) by {
                            if ids_view(r@).contains(b) {
                                if b == v.tags[i as int].id {
                                    assert(v.tags[i as int].parents.contains(t));
                                } else {
                                    let k = choose|k: int| 0 <= k < ids_view(r@).len() && ids_view(r@)[k] == b;
                                    assert(old_r[k] == b);
                                    assert(old_r.contains(b));
                                }
                            }
                            if exists|j: int|
                                0 <= j < i + 1 && v.tags[j].id == b && v.tags[j].parents.contains(t) {
                                let j = choose|j: int|
                                    0 <= j < i + 1 && v.tags[j].id == b && v.tags[j].parents.contains(t);
                                if j == i {
                                    assert(ids_view(r@)[old_r.len() as int] == b);
                                } else {
                                    assert(old_r.contains(b));
                                    let k = choose|k: int| 0 <= k < old_r.len() && old_r[k] == b;
                                    assert(ids_view(r@)[k] == b);
                                }
                            }
                        }
                    }
                }
                proof {
                    if i + 1 < self.tags@.len() {
                        assert(super::tag_lt()(v.tags[i as int], v.tags[i + 1]));
                    }
                }
                i = i + 1;
            }
            proof {
                assert forall|b: u64| ids_view(r@).contains(b) <==> step(v, up, t, b) by {}
            }
            r
        }
    }

    /// Set of tags reachable from `start` in one or more steps in a
    /// direction, sorted. `start` itself is in it only when it lies on a
    /// cycle.
    pub(crate) fn closure(&self, start: u64, up: bool) -> (r: Vec<TagId>)
        requires
            self.wf(),
        ensures
            sorted_by(ids_view(r@), id_lt()),
            forall|b: u64| ids_view(r@).contains(b) <==> reaches(self@, up, start, b),
    {
        let ghost v = self@;
        let ghost pool = landing_pool(v, up);
        let mut seen: Vec<TagId> = Vec::new();
        let mut queue: Vec<TagId> = Vec::new();
        queue.push(TagId(start));
        let mut qi: usize = 0;
        proof {
            assert(ids_view(seen@) =~= Seq::<u64>::empty());
        }
        while qi < queue.len()
            invariant
                v == self@,
                v.wf(),
                pool == landing_pool(v, up),
                sorted_by(ids_view(seen@), id_lt()),
                queue@.len() == seen@.len() + 1,
                queue@[0].0 == start,
                qi <= queue@.len(),
                forall|k: int| 1 <= k < queue@.len() ==> ids_view(seen@).contains(#[trigger] queue@[k].0),
                forall|b: u64| ids_view(seen@).contains(b) ==> exists|k: int|
                    1 <= k < queue@.len() && #[trigger] queue@[k].0 == b,
                forall|b: u64| ids_view(seen@).contains(b) ==> reaches(v, up, start, b),
                forall|b: u64| ids_view(seen@).contains(b) ==> pool.contains(b),
                forall|k: int, b: u64|
                    0 <= k < qi && #[trigger] step(v, up, queue@[k].0, b) ==> ids_view(
                        seen@,
                    ).contains(b),
            decreases pool.len() + 1 - qi,
        {
            let t = queue[qi].0;
            let next = self.neighbours(t, up);
            let ghost seen_before = ids_view(seen@);
            let mut j: usize = 0;
            while j < next.len()
                invariant
                    v == self@,
                    v.wf(),
                    pool == landing_pool(v, up),
                    t == queue@[qi as int].0,
                    qi < queue@.len(),
                    j <= next@.len(),
                    forall|b: u64| ids_view(next@).contains(b) <==> step(v, up, t, b),
                    sorted_by(ids_view(seen@), id_lt()),
                    queue@.len() == seen@.len() + 1,
                    queue@[0].0 == start,
                    forall|k: int| 1 <= k < queue@.len() ==> ids_view(seen@).contains(#[trigger] queue@[k].0),
                    forall|b: u64| ids_view(seen@).contains(b) ==> exists|k: int|
                        1 <= k < queue@.len() && #[trigger] queue@[k].0 == b,
                    forall|b: u64| ids_view(seen@).contains(b) ==> reaches(v, up, start, b),
                    forall|b: u64| ids_view(seen@).contains(b) ==> pool.contains(b),
                    forall|b: u64| seen_before.contains(b) ==> ids_view(seen@).contains(b),
                    forall|k: int, b: u64|
                        0 <= k < qi && #[trigger] step(v, up, queue@[k].0, b) ==> seen_before.contains(b),
                    forall|m: int| 0 <= m < j ==> ids_view(seen@).contains(#[trigger] ids_view(next@)[m]),
                decreases next@.len() - j,
            {
                let n = next[j];
                proof {
                    assert(ids_view(next@).contains(n.0)) by {
                        assert(ids_view(next@)[j as int] == n.0);
                    }
                    assert(step(v, up, t, n.0));
                }
                if !ids_contains(&seen, n.0) {
                    let ghost s0 = ids_view(seen@);
                    let ghost q0 = queue@;
                    ids_insert(&mut seen, n);
                    queue.push(n);
                    proof {
                        lemma_id_lt_order();
                        assert forall|b: u64| #[trigger] ids_view(seen@).contains(b) <==> (s0.contains(b)
                            || b == n.0) by {
                            crate::sorted::lemma_sorted_put_members(s0, n.0, id_lt());
                        }
                        // reachability of the new node
                        if qi == 0 {
                            lemma_walk_one(v, up, start, n.0);
                        } else {
                            assert(s0.contains(t));
                            let p = choose|p: Seq<u64>| #[trigger] is_walk(v, up, p) && p[0] == start && p.last() == t;
                            lemma_walk_push(v, up, p, n.0);
                        }
                        lemma_landing(v, up, t, n.0);
                        assert forall|k: int| 1 <= k < queue@.len() implies ids_view(seen@).contains(
                            #[trigger] queue@[k].0,
                        ) by {
                            if k < q0.len() {
                                assert(queue@[k] == q0[k]);
                            }
                        }
                        assert forall|b: u64| ids_view(seen@).contains(b) implies exists|k: int|
                            1 <= k < queue@.len() && #[trigger] queue@[k].0 == b by {
                            if b == n.0 {
                                assert(queue@[q0.len() as int].0 == b);
                            } else {
                                let k = choose|k: int| 1 <= k < q0.len() && #[trigger] q0[k].0 == b;
                                assert(queue@[k] == q0[k]);
                            }
                        }
                        assert forall|k: int, b: u64|
                            0 <= k < qi && #[trigger] step(v, up, queue@[k].0, b) implies seen_before.contains(b) by {
                            assert(queue@[k] == q0[k]);
                        }
                    }
                }
                j = j + 1;
            }
            proof {
                assert forall|k: int, b: u64|
                    0 <= k < qi + 1 && #[trigger] step(v, up, queue@[k].0, b) implies ids_view(
                    seen@,
                ).contains(b) by {
                    if k == qi {
                        assert(ids_view(next@).contains(b));
                        let m = choose|m: int| 0 <= m < ids_view(next@).len() && ids_view(next@)[m] == b;
                    }
                }
                lemma_sorted_ids_distinct(ids_view(seen@));
                assert forall|i: int| 0 <= i < ids_view(seen@).len() implies pool.contains(
                    #[trigger] ids_view(seen@)[i],
                ) by {}
                lemma_distinct_within(ids_view(seen@), pool);
            }
            qi = qi + 1;
        }
        proof {
            assert forall|b: u64| reaches(v, up, start, b) implies ids_view(seen@).contains(b) by {
                let p = choose|p: Seq<u64>| #[trigger] is_walk(v, up, p) && p[0] == start && p.last() == b;
                lemma_walk_in_seen(v, up, p, queue@, ids_view(seen@), p.len() - 1);
            }
        }
        seen
    }
}

/// Tags that lie on a cycle.
pub open spec fn cyclic_in(v: FolkView) -> spec_fn(u64) -> bool {
    |t: u64| on_cycle(v, t)
}

impl Folksonomy {
    /// Transitive closure upward, excluding the tag itself unless it lies on
    /// a cycle, sorted by id.
    pub fn ancestors(&self, tag: TagId) -> (r: Result<Vec<TagId>, FolkError>)
        requires
            self.wf(),
        ensures
            match r {
                Ok(ids) => {
                    &&& self@.has_tag(tag.0)
                    &&& sorted_by(ids_view(ids@), id_lt())
                    &&& forall|b: u64| ids_view(ids@).contains(b) <==> reaches(self@, true, tag.0, b)
                },
                Err(e) => !self@.has_tag(tag.0) && e == FolkError::UnknownTag(tag),
            },
    {
        self.require(tag)?;
        Ok(self.closure(tag.0, true))
    }

    /// Transitive closure downward, excluding the tag itself unless it lies
    /// on a cycle, sorted by id.
    pub fn descendants(&self, tag: TagId) -> (r: Result<Vec<TagId>, FolkError>)
        requires
            self.wf(),
        ensures
            match r {
                Ok(ids) => {
                    &&& self@.has_tag(tag.0)
                    &&& sorted_by(ids_view(ids@), id_lt())
                    &&& forall|b: u64| ids_view(ids@).contains(b) <==> reaches(self@, false, tag.0, b)
                },
                Err(e) => !self@.has_tag(tag.0) && e == FolkError::UnknownTag(tag),
            },
    {
        self.require(tag)?;
        Ok(self.closure(tag.0, false))
    }

    /// The tags that lie on at least one cycle, sorted by id.
    pub(crate) fn cyclic_tags(&self) -> (r: Vec<TagId>)
        requires
            self.wf(),
        ensures
            ids_view(r@) == self@.tag_ids().filter(cyclic_in(self@)),
    {
        let ghost v = self@;
        let mut out: Vec<TagId> = Vec::new();
        let mut i: usize = 0;
        proof {
            assert(v.tag_ids().take(0) =~= Seq::<u64>::empty());
            assert(ids_view(out@) =~= Seq::<u64>::empty());
            crate::sorted::lemma_filter_none(Seq::<u64>::empty(), cyclic_in(v));
        }
        while i < self.tags.len()
            invariant
                v == self@,
                v.wf(),
                i <= self.tags@.len(),
                ids_view(out@) == v.tag_ids().take(i as int).filter(cyclic_in(v)),
            decreases self.tags@.len() - i,
        {
            let id = self.tags[i].id;
            proof {
                assert(v.tag_ids().take(i + 1) =~= v.tag_ids().take(i as int).push(id.0));
                v.tag_ids().take(i as int).lemma_filter_push(id.0, cyclic_in(v));
            }
            if ids_contains(&self.closure(id.0, true), id.0) {
                let ghost before = ids_view(out@);
                out.push(id);
                proof {
                    assert(ids_view(out@) =~= before.push(id.0));
                }
            }
            i = i + 1;
        }
        proof {
            assert(v.tag_ids().take(v.tags.len() as int) =~= v.tag_ids());
        }
        out
    }

    /// Whether some tag lies on a cycle.
    pub(crate) fn has_cycle(&self) -> (r: bool)
        requires
            self.wf(),
        ensures
            r == has_cycle(self@),
    {
        let ghost v = self@;
        let mut i: usize = 0;
        while i < self.tags.len()
            invariant
                v == self@,
                v.wf(),
                i <= self.tags@.len(),
                forall|j: int| 0 <= j < i ==> !on_cycle(v, #[trigger] v.tags[j].id),
            decreases self.tags@.len() - i,
        {
            let id = self.tags[i].id.0;
            if ids_contains(&self.closure(id, true), id) {
                assert(v.tags[i as int].id == id);
                assert(on_cycle(v, v.tags[i as int].id));
                return true;
            }
            i = i + 1;
        }
        false
    }

    /// Whether adding the edge `child -> parent` would close a cycle: true
    /// when `child` is already an ancestor of `parent` (or is `parent`).
    pub(crate) fn edge_would_cycle(&self, child: TagId, parent: TagId) -> (r: bool)
        requires
            self.wf(),
        ensures
            r == (child.0 == parent.0 || reaches(self@, true, parent.0, child.0)),
    {
        child.0 == parent.0 || ids_contains(&self.closure(parent.0, true), child.0)
    }
}

/// Every node of a walk from `queue[0]` past its start is seen, when every
/// queued node has had all its steps seen and every seen node is queued.
proof fn lemma_walk_in_seen(v: FolkView, up: bool, p: Seq<u64>, queue: Seq<TagId>, seen: Seq<u64>, m: int)
    requires
        is_walk(v, up, p),
        queue.len() >= 1,
        p[0] == queue[0].0,
        1 <= m < p.len(),
        forall|b: u64| seen.contains(b) ==> exists|k: int| 1 <= k < queue.len() && #[trigger] queue[k].0 == b,
        forall|k: int, b: u64|
            0 <= k < queue.len() && #[trigger] step(v, up, queue[k].0, b) ==> seen.contains(b),
    ensures
        seen.contains(p[m]),
    decreases m,
{
    assert(step(v, up, p[m - 1], p[(m - 1) + 1]));
    if m == 1 {
        assert(step(v, up, queue[0].0, p[1]));
    } else {
        lemma_walk_in_seen(v, up, p, queue, seen, m - 1);
        let k = choose|k: int| 1 <= k < queue.len() && #[trigger] queue[k].0 == p[m - 1];
        assert(step(v, up, queue[k].0, p[m]));
    }
}

/// A walk read backwards is a walk in the other direction.
proof fn lemma_walk_reverse(v: FolkView, up: bool, back: bool, p: Seq<u64>)
    requires
        is_walk(v, up, p),
        back == !up,
    ensures
        is_walk(v, back, p.reverse()),
        p.reverse()[0] == p.last(),
        p.reverse().last() == p[0],
{
    let q = p.reverse();
    let n = p.len();
    assert forall|k: int| 0 <= k < q.len() - 1 implies #[trigger] step(v, back, q[k], q[k + 1]) by {
        assert(q[k] == p[n - 1 - k]);
        assert(q[k + 1] == p[n - 2 - k]);
        assert(step(v, up, p[n - 2 - k], p[(n - 2 - k) + 1]));
    }
}

/// `b` is a descendant of `a` exactly when `a` is an ancestor of `b`.
pub proof fn law_descendant_iff_ancestor(v: FolkView, a: u64, b: u64)
    ensures
        reaches(v, false, a, b) <==> reaches(v, true, b, a),
{
    if reaches(v, false, a, b) {
        let p = choose|p: Seq<u64>| #[trigger] is_walk(v, false, p) && p[0] == a && p.last() == b;
        lemma_walk_reverse(v, false, true, p);
        assert(is_walk(v, true, p.reverse()));
    }
    if reaches(v, true, b, a) {
        let p = choose|p: Seq<u64>| #[trigger] is_walk(v, true, p) && p[0] == b && p.last() == a;
        lemma_walk_reverse(v, true, false, p);
        assert(is_walk(v, false, p.reverse()));
    }
}

} // verus!
