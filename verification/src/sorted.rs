//! Sequences kept strictly sorted under an order, and what inserting into or
//! removing from them does.

use vstd::prelude::*;

verus! {

/// Every earlier element comes strictly before every later one.
pub open spec fn sorted_by<A>(s: Seq<A>, lt: spec_fn(A, A) -> bool) -> bool {
    forall|i: int, j: int| 0 <= i < j < s.len() ==> #[trigger] lt(s[i], s[j])
}

/// `lt` is a strict weak order: irreflexive, transitive, and two elements
/// that are unordered with each other are ordered alike against a third.
#[verifier::opaque]
pub open spec fn strict_weak<A>(lt: spec_fn(A, A) -> bool) -> bool {
    &&& forall|a: A| !#[trigger] lt(a, a)
    &&& forall|a: A, b: A, c: A| #[trigger] lt(a, b) && #[trigger] lt(b, c) ==> lt(a, c)
    &&& forall|a: A, b: A, c: A| #[trigger] lt(a, c) ==> lt(a, b) || #[trigger] lt(b, c)
}

/// `s` with `x` put in its place: every element ordered before `x`, then `x`,
/// then every element ordered after it. An element unordered with `x` (the
/// same key) is replaced.
pub open spec fn sorted_put<A>(s: Seq<A>, x: A, lt: spec_fn(A, A) -> bool) -> Seq<A> {
    s.filter(before(lt, x)) + seq![x] + s.filter(after(lt, x))
}

/// The elements of `s` put one by one, in order, into an empty sorted
/// sequence: sorted, without two elements of the same key, the later of two
/// such elements winning.
pub open spec fn set_of<A>(s: Seq<A>, lt: spec_fn(A, A) -> bool) -> Seq<A>
    decreases s.len(),
{
    if s.len() == 0 {
        Seq::empty()
    } else {
        sorted_put(set_of(s.drop_last(), lt), s.last(), lt)
    }
}

/// The elements ordered before `x`.
pub open spec fn before<A>(lt: spec_fn(A, A) -> bool, x: A) -> spec_fn(A) -> bool {
    |y: A| lt(y, x)
}

/// The elements ordered after `x`.
pub open spec fn after<A>(lt: spec_fn(A, A) -> bool, x: A) -> spec_fn(A) -> bool {
    |y: A| lt(x, y)
}

/// Every element but `x`.
pub open spec fn other_than<A>(x: A) -> spec_fn(A) -> bool {
    |y: A| y != x
}

/// In a sorted sequence, the first index whose element is not before `x` is
/// the only place an element with the same key as `x` can be.
pub proof fn lemma_position_equiv<A>(s: Seq<A>, lt: spec_fn(A, A) -> bool, x: A, i: int)
    requires
        sorted_by(s, lt),
        strict_weak(lt),
        0 <= i <= s.len(),
        forall|j: int| 0 <= j < i ==> #[trigger] lt(s[j], x),
        i < s.len() ==> !lt(s[i], x),
    ensures
        forall|j: int| 0 <= j < s.len() && !lt(s[j], x) && !#[trigger] lt(x, s[j]) ==> j == i,
{
    assert forall|j: int| 0 <= j < s.len() && !lt(s[j], x) && !#[trigger] lt(x, s[j]) implies j
        == i by {
        if j > i {
            assert(lt(s[i], s[j]));
            lemma_split(lt, s[i], x, s[j]);
        }
    }
}

/// A sequence without repeats, all of whose elements occur in `b`, is no
/// longer than `b`.
pub proof fn lemma_distinct_within<A>(a: Seq<A>, b: Seq<A>)
    requires
        a.no_duplicates(),
        forall|i: int| 0 <= i < a.len() ==> b.contains(#[trigger] a[i]),
    ensures
        a.len() <= b.len(),
{
    broadcast use vstd::seq_lib::seq_to_set_is_finite;

    a.unique_seq_to_set();
    b.lemma_cardinality_of_set();
    assert forall|x: A| a.to_set().contains(x) implies b.to_set().contains(x) by {
        let i = choose|i: int| 0 <= i < a.len() && a[i] == x;
        assert(b.contains(a[i]));
    }
    vstd::set_lib::lemma_len_subset(a.to_set(), b.to_set());
}

/// `lt` never relates an element to itself.
pub proof fn lemma_irreflexive<A>(lt: spec_fn(A, A) -> bool, a: A)
    requires
        strict_weak(lt),
    ensures
        !lt(a, a),
{
    reveal(strict_weak);
}

/// `lt` is transitive.
pub proof fn lemma_transitive<A>(lt: spec_fn(A, A) -> bool, a: A, b: A, c: A)
    requires
        strict_weak(lt),
        lt(a, b),
        lt(b, c),
    ensures
        lt(a, c),
{
    reveal(strict_weak);
}

/// Whatever lies between `a` and `c` is after `a` or before `c`.
pub proof fn lemma_split<A>(lt: spec_fn(A, A) -> bool, a: A, b: A, c: A)
    requires
        strict_weak(lt),
        lt(a, c),
    ensures
        lt(a, b) || lt(b, c),
{
    reveal(strict_weak);
}

/// Filtering with a predicate that holds everywhere changes nothing.
pub proof fn lemma_filter_all<A>(s: Seq<A>, p: spec_fn(A) -> bool)
    requires
        forall|i: int| 0 <= i < s.len() ==> #[trigger] p(s[i]),
    ensures
        s.filter(p) == s,
    decreases s.len(),
{
    reveal(Seq::filter);
    if s.len() > 0 {
        lemma_filter_all(s.drop_last(), p);
        assert(s.drop_last().push(s.last()) =~= s);
    }
}

/// Filtering with a predicate that holds nowhere leaves nothing.
pub proof fn lemma_filter_none<A>(s: Seq<A>, p: spec_fn(A) -> bool)
    requires
        forall|i: int| 0 <= i < s.len() ==> !#[trigger] p(s[i]),
    ensures
        s.filter(p) == Seq::<A>::empty(),
    decreases s.len(),
{
    reveal(Seq::filter);
    if s.len() > 0 {
        lemma_filter_none(s.drop_last(), p);
    }
}

/// Filtering with a predicate that fails at exactly one index removes that
/// element.
pub proof fn lemma_filter_remove<A>(s: Seq<A>, p: spec_fn(A) -> bool, i: int)
    requires
        0 <= i < s.len(),
        !p(s[i]),
        forall|j: int| 0 <= j < s.len() && j != i ==> #[trigger] p(s[j]),
    ensures
        s.filter(p) == s.remove(i),
{
    let a = s.subrange(0, i);
    let b = s.subrange(i + 1, s.len() as int);
    assert(s =~= a + seq![s[i]] + b);
    Seq::filter_distributes_over_add(a + seq![s[i]], b, p);
    Seq::filter_distributes_over_add(a, seq![s[i]], p);
    lemma_filter_all(a, p);
    lemma_filter_all(b, p);
    lemma_filter_none(seq![s[i]], p);
    assert(s.remove(i) =~= a + b);
}

/// Everything after a sorted position `i` that is not before `x` is not
/// before `x` either.
proof fn lemma_tail_not_below<A>(s: Seq<A>, x: A, lt: spec_fn(A, A) -> bool, i: int)
    requires
        sorted_by(s, lt),
        strict_weak(lt),
        0 <= i < s.len(),
        !lt(s[i], x),
    ensures
        forall|k: int| i <= k < s.len() ==> !#[trigger] lt(s[k], x),
{
    assert forall|k: int| i <= k < s.len() implies !#[trigger] lt(s[k], x) by {
        if k > i {
            assert(lt(s[i], s[k]));
            if lt(s[k], x) {
                lemma_transitive(lt, s[i], s[k], x);
            }
        }
    }
}

/// Everything after an element that `x` is not before is after `x`.
proof fn lemma_tail_above<A>(s: Seq<A>, x: A, lt: spec_fn(A, A) -> bool, i: int)
    requires
        sorted_by(s, lt),
        strict_weak(lt),
        0 <= i < s.len(),
        !lt(s[i], x),
    ensures
        forall|k: int| i < k < s.len() ==> #[trigger] lt(x, s[k]),
{
    assert forall|k: int| i < k < s.len() implies #[trigger] lt(x, s[k]) by {
        assert(lt(s[i], s[k]));
        lemma_split(lt, s[i], x, s[k]);
    }
}

/// Nothing before `x` is after it.
proof fn lemma_below_not_above<A>(s: Seq<A>, x: A, lt: spec_fn(A, A) -> bool, i: int)
    requires
        strict_weak(lt),
        0 <= i <= s.len(),
        forall|j: int| 0 <= j < i ==> #[trigger] lt(s[j], x),
    ensures
        forall|j: int| 0 <= j < i ==> !#[trigger] lt(x, s[j]),
{
    assert forall|j: int| 0 <= j < i implies !#[trigger] lt(x, s[j]) by {
        assert(lt(s[j], x));
        if lt(x, s[j]) {
            lemma_transitive(lt, s[j], x, s[j]);
            lemma_irreflexive(lt, s[j]);
        }
    }
}

/// The elements of a sorted sequence before index `i` are exactly those
/// before `x`, given `i` is the first index whose element is not before `x`.
proof fn lemma_put_below<A>(s: Seq<A>, x: A, lt: spec_fn(A, A) -> bool, i: int)
    requires
        sorted_by(s, lt),
        strict_weak(lt),
        0 <= i <= s.len(),
        forall|j: int| 0 <= j < i ==> #[trigger] lt(s[j], x),
        i < s.len() ==> !lt(s[i], x),
    ensures
        s.filter(before(lt, x)) == s.subrange(0, i),
        s.subrange(0, i).filter(after(lt, x)) == Seq::<A>::empty(),
{
    let below = before(lt, x);
    let above = after(lt, x);
    let a = s.subrange(0, i);
    let b = s.subrange(i, s.len() as int);
    assert(s == a + b);
    Seq::filter_distributes_over_add(a, b, below);
    lemma_below_not_above(s, x, lt, i);
    assert forall|k: int| 0 <= k < a.len() implies #[trigger] below(a[k]) by {
        assert(a[k] == s[k]);
    }
    assert forall|k: int| 0 <= k < a.len() implies !#[trigger] above(a[k]) by {
        assert(a[k] == s[k]);
    }
    lemma_filter_all(a, below);
    lemma_filter_none(a, above);
    if i < s.len() {
        lemma_tail_not_below(s, x, lt, i);
    }
    assert forall|k: int| 0 <= k < b.len() implies !#[trigger] below(b[k]) by {
        assert(b[k] == s[i + k]);
    }
    lemma_filter_none(b, below);
}

/// The elements after `x` when the element at `i` has the same key as `x`:
/// everything after `i`.
proof fn lemma_put_above_same<A>(s: Seq<A>, x: A, lt: spec_fn(A, A) -> bool, i: int)
    requires
        sorted_by(s, lt),
        strict_weak(lt),
        0 <= i < s.len(),
        s.subrange(0, i).filter(after(lt, x)) == Seq::<A>::empty(),
        !lt(s[i], x),
        !lt(x, s[i]),
    ensures
        s.filter(after(lt, x)) == s.subrange(i + 1, s.len() as int),
{
    let above = after(lt, x);
    let a = s.subrange(0, i);
    let c = s.subrange(i + 1, s.len() as int);
    lemma_tail_above(s, x, lt, i);
    assert(s == a + (seq![s[i]] + c));
    Seq::filter_distributes_over_add(a, seq![s[i]] + c, above);
    Seq::filter_distributes_over_add(seq![s[i]], c, above);
    lemma_filter_none(seq![s[i]], above);
    assert forall|k: int| 0 <= k < c.len() implies #[trigger] above(c[k]) by {
        assert(c[k] == s[i + 1 + k]);
    }
    lemma_filter_all(c, above);
    assert(Seq::<A>::empty() + (Seq::<A>::empty() + c) == c);
}

/// The elements after `x` when the element at `i` is after `x`: everything
/// from `i` on.
proof fn lemma_put_above_new<A>(s: Seq<A>, x: A, lt: spec_fn(A, A) -> bool, i: int)
    requires
        sorted_by(s, lt),
        strict_weak(lt),
        0 <= i <= s.len(),
        s.subrange(0, i).filter(after(lt, x)) == Seq::<A>::empty(),
        i < s.len() ==> lt(x, s[i]),
    ensures
        s.filter(after(lt, x)) == s.subrange(i, s.len() as int),
{
    let above = after(lt, x);
    let a = s.subrange(0, i);
    let b = s.subrange(i, s.len() as int);
    assert(s == a + b);
    Seq::filter_distributes_over_add(a, b, above);
    assert forall|k: int| 0 <= k < b.len() implies #[trigger] above(b[k]) by {
        assert(b[k] == s[i + k]);
        if k > 0 {
            assert(lt(s[i], s[i + k]));
            lemma_transitive(lt, x, s[i], s[i + k]);
        }
    }
    lemma_filter_all(b, above);
    assert(Seq::<A>::empty() + b == b);
}

/// Putting `x` at the first index `i` whose element is not before it: when
/// that element is after `x`, `x` is inserted there; when it is unordered with
/// `x`, `x` replaces it. Either way the result stays sorted.
pub proof fn lemma_sorted_put<A>(s: Seq<A>, x: A, lt: spec_fn(A, A) -> bool, i: int)
    requires
        sorted_by(s, lt),
        strict_weak(lt),
        0 <= i <= s.len(),
        forall|j: int| 0 <= j < i ==> #[trigger] lt(s[j], x),
        i < s.len() ==> !lt(s[i], x),
    ensures
        i < s.len() && !lt(x, s[i]) ==> sorted_put(s, x, lt) == s.update(i, x),
        (i == s.len() || lt(x, s[i])) ==> sorted_put(s, x, lt) == s.insert(i, x),
        sorted_by(sorted_put(s, x, lt), lt),
{
    lemma_put_below(s, x, lt, i);
    if i < s.len() && !lt(x, s[i]) {
        lemma_put_above_same(s, x, lt, i);
    } else {
        lemma_put_above_new(s, x, lt, i);
    }
    let a = s.subrange(0, i);
    if i < s.len() {
        lemma_tail_above(s, x, lt, i);
    }
    if i < s.len() && !lt(x, s[i]) {
        let c = s.subrange(i + 1, s.len() as int);
        assert(s.update(i, x) =~= a + seq![x] + c);
        lemma_sorted_update(s, x, lt, i);
    } else {
        let b = s.subrange(i, s.len() as int);
        assert(s.insert(i, x) =~= a + seq![x] + b);
        lemma_sorted_insert(s, x, lt, i);
    }
}

proof fn lemma_sorted_update<A>(s: Seq<A>, x: A, lt: spec_fn(A, A) -> bool, i: int)
    requires
        sorted_by(s, lt),
        0 <= i < s.len(),
        forall|j: int| 0 <= j < i ==> #[trigger] lt(s[j], x),
        forall|k: int| i < k < s.len() ==> #[trigger] lt(x, s[k]),
    ensures
        sorted_by(s.update(i, x), lt),
{
    assert forall|p: int, q: int|
        0 <= p < q < s.len() implies #[trigger] lt(s.update(i, x)[p], s.update(i, x)[q]) by {
        if p != i && q != i {
            assert(lt(s[p], s[q]));
        }
    }
}

proof fn lemma_sorted_insert<A>(s: Seq<A>, x: A, lt: spec_fn(A, A) -> bool, i: int)
    requires
        sorted_by(s, lt),
        0 <= i <= s.len(),
        forall|j: int| 0 <= j < i ==> #[trigger] lt(s[j], x),
        forall|k: int| i <= k < s.len() ==> #[trigger] lt(x, s[k]),
    ensures
        sorted_by(s.insert(i, x), lt),
{
    assert forall|p: int, q: int|
        0 <= p < q < s.len() + 1 implies #[trigger] lt(s.insert(i, x)[p], s.insert(i, x)[q]) by {
        if p < i && q == i {
        } else if p == i {
            assert(s.insert(i, x)[q] == s[q - 1]);
        } else if p < i && q > i {
            assert(lt(s[p], s[q - 1]));
        } else if p < i {
            assert(lt(s[p], s[q]));
        } else {
            assert(lt(s[p - 1], s[q - 1]));
        }
    }
}

/// The elements of `sorted_put(s, x)` for a total order are those of `s`
/// and `x`.
pub proof fn lemma_sorted_put_members<A>(s: Seq<A>, x: A, lt: spec_fn(A, A) -> bool)
    requires
        strict_weak(lt),
        forall|a: A, b: A| !#[trigger] lt(a, b) && !#[trigger] lt(b, a) ==> a == b,
    ensures
        forall|y: A| #[trigger] sorted_put(s, x, lt).contains(y) <==> (s.contains(y) || y == x),
{
    let below = before(lt, x);
    let above = after(lt, x);
    let r = sorted_put(s, x, lt);
    assert forall|y: A| #[trigger] r.contains(y) implies (s.contains(y) || y == x) by {
        let k = choose|k: int| 0 <= k < r.len() && r[k] == y;
        let fb = s.filter(below);
        let fa = s.filter(above);
        if k < fb.len() {
            assert(fb.contains(y));
            lemma_filter_sub(s, below, y);
        } else if k > fb.len() {
            assert(fa[k - fb.len() - 1] == y);
            assert(fa.contains(y));
            lemma_filter_sub(s, above, y);
        }
    }
    assert forall|y: A| (s.contains(y) || y == x) implies #[trigger] r.contains(y) by {
        let fb = s.filter(below);
        let fa = s.filter(above);
        if y == x {
            assert(r[fb.len() as int] == x);
        } else {
            let k = choose|k: int| 0 <= k < s.len() && s[k] == y;
            if lt(y, x) {
                s.lemma_filter_contains(below, k);
                let m = choose|m: int| 0 <= m < fb.len() && fb[m] == y;
                assert(r[m] == y);
            } else {
                assert(lt(x, y));
                s.lemma_filter_contains(above, k);
                let m = choose|m: int| 0 <= m < fa.len() && fa[m] == y;
                assert(r[fb.len() + 1 + m] == y);
            }
        }
    }
}

/// An element of a filtered sequence is an element of the sequence.
pub proof fn lemma_filter_sub<A>(s: Seq<A>, p: spec_fn(A) -> bool, y: A)
    requires
        s.filter(p).contains(y),
    ensures
        s.contains(y),
    decreases s.len(),
{
    reveal(Seq::filter);
    if s.len() > 0 {
        let rest = s.drop_last();
        if p(s.last()) && y == s.last() {
            assert(s[s.len() - 1] == y);
        } else {
            if p(s.last()) {
                let k = choose|k: int| 0 <= k < s.filter(p).len() && s.filter(p)[k] == y;
                assert(rest.filter(p)[k] == y);
            }
            lemma_filter_sub(rest, p, y);
            let k = choose|k: int| 0 <= k < rest.len() && rest[k] == y;
            assert(s[k] == y);
        }
    }
}

/// What a filtered sequence contains.
pub proof fn lemma_filter_contains_iff<A>(s: Seq<A>, p: spec_fn(A) -> bool, y: A)
    ensures
        s.filter(p).contains(y) <==> (s.contains(y) && p(y)),
{
    if s.filter(p).contains(y) {
        lemma_filter_sub(s, p, y);
        let k = choose|k: int| 0 <= k < s.filter(p).len() && s.filter(p)[k] == y;
        s.lemma_filter_pred(p, k);
    }
    if s.contains(y) && p(y) {
        let k = choose|k: int| 0 <= k < s.len() && s[k] == y;
        s.lemma_filter_contains(p, k);
    }
}

/// Removing an element keeps a sequence sorted.
pub proof fn lemma_sorted_remove<A>(s: Seq<A>, lt: spec_fn(A, A) -> bool, i: int)
    requires
        sorted_by(s, lt),
        0 <= i < s.len(),
    ensures
        sorted_by(s.remove(i), lt),
{
    assert forall|p: int, q: int| 0 <= p < q < s.len() - 1 implies #[trigger] lt(
        s.remove(i)[p],
        s.remove(i)[q],
    ) by {
        let pp = if p < i { p } else { p + 1 };
        let qq = if q < i { q } else { q + 1 };
        assert(lt(s[pp], s[qq]));
    }
}

/// Building a set from one more element puts that element into the set.
pub proof fn lemma_set_of_push<A>(s: Seq<A>, x: A, lt: spec_fn(A, A) -> bool)
    ensures
        set_of(s.push(x), lt) == sorted_put(set_of(s, lt), x, lt),
{
    assert(s.push(x).drop_last() =~= s);
    assert(s.push(x).last() == x);
}

/// Filtering keeps a sorted sequence sorted.
pub proof fn lemma_filter_sorted<A>(s: Seq<A>, p: spec_fn(A) -> bool, lt: spec_fn(A, A) -> bool)
    requires
        sorted_by(s, lt),
    ensures
        sorted_by(s.filter(p), lt),
    decreases s.len(),
{
    if s.len() > 0 {
        let r = s.drop_last();
        let x = s.last();
        assert(sorted_by(r, lt));
        lemma_filter_sorted(r, p, lt);
        assert(s =~= r.push(x));
        r.lemma_filter_push(x, p);
        if p(x) {
            let f = r.filter(p);
            assert forall|i: int, j: int| 0 <= i < j < f.len() + 1 implies #[trigger] lt(
                f.push(x)[i],
                f.push(x)[j],
            ) by {
                if j == f.len() {
                    assert(f.contains(f[i]));
                    lemma_filter_sub(r, p, f[i]);
                    let k = choose|k: int| 0 <= k < r.len() && r[k] == f[i];
                    assert(lt(s[k], s[s.len() - 1]));
                }
            }
        }
    }
}

} // verus!
