//! Strict orders, the lexicographic order they induce on sequences, and sorting.

use vstd::prelude::*;

verus! {

/// `lt` never relates an element to itself.
pub open spec fn irreflexive<T>(lt: spec_fn(T, T) -> bool) -> bool {
    forall|x: T| !#[trigger] lt(x, x)
}

/// `lt` carries over from one step to the next.
pub open spec fn transitive<T>(lt: spec_fn(T, T) -> bool) -> bool {
    forall|x: T, y: T, z: T| #[trigger] lt(x, y) && #[trigger] lt(y, z) ==> lt(x, z)
}

/// Of two different elements, one comes before the other.
pub open spec fn trichotomous<T>(lt: spec_fn(T, T) -> bool) -> bool {
    forall|x: T, y: T| x == y || #[trigger] lt(x, y) || lt(y, x)
}

/// `lt` lines all the elements up, one after the other.
pub open spec fn strict_total_order<T>(lt: spec_fn(T, T) -> bool) -> bool {
    &&& irreflexive(lt)
    &&& transitive(lt)
    &&& trichotomous(lt)
}

/// `a` and `b` agree up to `i`, and at `i` either `a` has ended or its element comes first.
pub open spec fn lex_before_at<T>(a: Seq<T>, b: Seq<T>, lt: spec_fn(T, T) -> bool, i: int) -> bool {
    &&& 0 <= i <= a.len()
    &&& i < b.len()
    &&& forall|j: int| 0 <= j < i ==> a[j] == b[j]
    &&& i == a.len() || lt(a[i], b[i])
}

/// The lexicographic order: dictionary order over elements ordered by `lt`.
pub open spec fn lex_before<T>(a: Seq<T>, b: Seq<T>, lt: spec_fn(T, T) -> bool) -> bool {
    exists|i: int| #[trigger] lex_before_at(a, b, lt, i)
}

proof fn lemma_lex_irreflexive<T>(a: Seq<T>, lt: spec_fn(T, T) -> bool)
    requires
        irreflexive(lt),
    ensures
        !lex_before(a, a, lt),
{
    assert forall|i: int| !#[trigger] lex_before_at(a, a, lt, i) by {
        if 0 <= i < a.len() {
            assert(!lt(a[i], a[i]));
        }
    }
}

proof fn lemma_lex_transitive<T>(a: Seq<T>, b: Seq<T>, c: Seq<T>, lt: spec_fn(T, T) -> bool)
    requires
        transitive(lt),
        lex_before(a, b, lt),
        lex_before(b, c, lt),
    ensures
        lex_before(a, c, lt),
{
    let i = choose|i: int| lex_before_at(a, b, lt, i);
    let j = choose|j: int| lex_before_at(b, c, lt, j);
    let k = if i < j { i } else { j };
    assert(lex_before_at(a, c, lt, k)) by {
        assert forall|m: int| 0 <= m < k implies a[m] == c[m] by {
            assert(a[m] == b[m]);
            assert(b[m] == c[m]);
        }
        if k < a.len() && i == j {
            assert(lt(a[i], b[i]) && lt(b[i], c[i]));
        }
    }
}

/// Two sequences that agree up to `i` are equal, or one of them comes before the other.
proof fn lemma_lex_trichotomous<T>(a: Seq<T>, b: Seq<T>, lt: spec_fn(T, T) -> bool, i: int)
    requires
        trichotomous(lt),
        0 <= i <= a.len(),
        i <= b.len(),
        forall|j: int| 0 <= j < i ==> a[j] == b[j],
    ensures
        a == b || lex_before(a, b, lt) || lex_before(b, a, lt),
    decreases a.len() - i,
{
    if i == a.len() && i == b.len() {
        assert(a =~= b);
    } else if i == a.len() {
        assert(lex_before_at(a, b, lt, i));
    } else if i == b.len() {
        assert(lex_before_at(b, a, lt, i));
    } else if a[i] == b[i] {
        lemma_lex_trichotomous(a, b, lt, i + 1);
    } else if lt(a[i], b[i]) {
        assert(lex_before_at(a, b, lt, i));
    } else {
        assert(lt(b[i], a[i]));
        assert(lex_before_at(b, a, lt, i));
    }
}

/// The lexicographic order over a strict total order is itself a strict total order.
pub proof fn lemma_lex_is_strict_total_order<T>(lt: spec_fn(T, T) -> bool)
    requires
        strict_total_order(lt),
    ensures
        strict_total_order(|a: Seq<T>, b: Seq<T>| lex_before(a, b, lt)),
{
    let lex = |a: Seq<T>, b: Seq<T>| lex_before(a, b, lt);
    assert forall|a: Seq<T>| !#[trigger] lex(a, a) by {
        lemma_lex_irreflexive(a, lt);
    }
    assert forall|a: Seq<T>, b: Seq<T>, c: Seq<T>| #[trigger]
        lex(a, b) && #[trigger] lex(b, c) implies lex(a, c) by {
        lemma_lex_transitive(a, b, c, lt);
    }
    assert forall|a: Seq<T>, b: Seq<T>| a == b || #[trigger] lex(a, b) || lex(b, a) by {
        lemma_lex_trichotomous(a, b, lt, 0);
    }
}

/// Things that can be lined up by what their views say.
pub trait Ranked: View + Sized {
    /// `a` has to come before `b`.
    spec fn ranks_before(a: Self::V, b: Self::V) -> bool;

    /// Nothing has to come before itself, by way of another or not.
    proof fn ranks_are_asymmetric(a: Self::V, b: Self::V)
        requires
            Self::ranks_before(a, b),
        ensures
            !Self::ranks_before(b, a),
    ;

    /// What need not come before something need not come before what follows it.
    proof fn ranks_are_transitive(a: Self::V, b: Self::V, c: Self::V)
        requires
            !Self::ranks_before(b, a),
            !Self::ranks_before(c, b),
        ensures
            !Self::ranks_before(c, a),
    ;

    fn is_ranked_before(&self, other: &Self) -> (before: bool)
        ensures
            before == Self::ranks_before(self@, other@),
    ;
}

/// The views of the elements of a sequence.
pub open spec fn views<T: View>(s: Seq<T>) -> Seq<T::V> {
    s.map_values(|x: T| x@)
}

/// No element has to come before an earlier one.
pub open spec fn in_order<T: Ranked>(s: Seq<T::V>) -> bool {
    forall|i: int, j: int| 0 <= i < j < s.len() ==> !T::ranks_before(#[trigger] s[j], #[trigger] s[i])
}

/// There is but one way to put elements in order, if those that need not come before each other
/// are equal.
pub proof fn lemma_order_is_unique<T: Ranked>(one: Seq<T::V>, other: Seq<T::V>)
    requires
        in_order::<T>(one),
        in_order::<T>(other),
        one.to_multiset() == other.to_multiset(),
        forall|i: int, j: int|
            0 <= i < one.len() && 0 <= j < one.len() && !T::ranks_before(
                #[trigger] one[i],
                #[trigger] one[j],
            ) && !T::ranks_before(one[j], one[i]) ==> one[i] == one[j],
    ensures
        one == other,
    decreases one.len(),
{
    one.to_multiset_ensures();
    other.to_multiset_ensures();
    if one.len() == 0 {
        assert(one =~= other);
    } else {
        let x = one.last();
        let y = other.last();
        vstd::seq_lib::to_multiset_contains(one, x);
        vstd::seq_lib::to_multiset_contains(one, y);
        vstd::seq_lib::to_multiset_contains(other, x);
        vstd::seq_lib::to_multiset_contains(other, y);
        assert(one.contains(x)) by {
            assert(one[one.len() - 1] == x);
        }
        assert(other.contains(y)) by {
            assert(other[other.len() - 1] == y);
        }
        let i = choose|i: int| 0 <= i < one.len() && one[i] == y;
        let j = choose|j: int| 0 <= j < other.len() && other[j] == x;
        assert(x == y) by {
            if x != y {
                assert(!T::ranks_before(one[one.len() - 1], one[i]));
                assert(!T::ranks_before(other[other.len() - 1], other[j]));
            }
        }
        let a = one.drop_last();
        let b = other.drop_last();
        assert(a.push(x) =~= one);
        assert(b.push(y) =~= other);
        vstd::seq_lib::to_multiset_build(a, x);
        vstd::seq_lib::to_multiset_build(b, y);
        assert(a.to_multiset() =~= one.to_multiset().remove(x));
        assert(b.to_multiset() =~= other.to_multiset().remove(y));
        assert forall|i: int, j: int|
            0 <= i < a.len() && 0 <= j < a.len() && !T::ranks_before(
                #[trigger] a[i],
                #[trigger] a[j],
            ) && !T::ranks_before(a[j], a[i]) implies a[i] == a[j] by {
            assert(one[i] == a[i] && one[j] == a[j]);
        }
        lemma_order_is_unique::<T>(a, b);
    }
}

/// Leaving elements out keeps the others in order.
pub proof fn lemma_filter_keeps_order<T: Ranked>(s: Seq<T::V>, keep: spec_fn(T::V) -> bool)
    requires
        in_order::<T>(s),
    ensures
        in_order::<T>(s.filter(keep)),
    decreases s.len(),
{
    reveal(Seq::filter);
    if s.len() > 0 {
        let rest = s.drop_last();
        lemma_filter_keeps_order::<T>(rest, keep);
        let before = rest.filter(keep);
        let after = s.filter(keep);
        assert forall|i: int, j: int| 0 <= i < j < after.len() implies !T::ranks_before(
            #[trigger] after[j],
            #[trigger] after[i],
        ) by {
            assert(after[i] == before[i]);
            if j == before.len() {
                assert(before.contains(before[i]));
                rest.lemma_filter_contains_rev(keep, before[i]);
                let k = choose|k: int| 0 <= k < rest.len() && rest[k] == before[i];
                assert(s[k] == rest[k]);
            } else {
                assert(after[j] == before[j]);
            }
        }
    }
}

/// Leaving elements out leaves the same elements, in whatever order they are.
pub proof fn lemma_filter_multiset<A>(s: Seq<A>, keep: spec_fn(A) -> bool)
    ensures
        s.filter(keep).to_multiset() == s.to_multiset().filter(keep),
    decreases s.len(),
{
    broadcast use vstd::multiset::group_multiset_axioms;

    reveal(Seq::filter);
    s.to_multiset_ensures();
    if s.len() == 0 {
        s.filter(keep).to_multiset_ensures();
        assert(s.filter(keep).to_multiset() =~= s.to_multiset().filter(keep));
    } else {
        let rest = s.drop_last();
        lemma_filter_multiset(rest, keep);
        assert(rest.push(s.last()) =~= s);
        vstd::seq_lib::to_multiset_build(rest, s.last());
        vstd::seq_lib::to_multiset_build(rest.filter(keep), s.last());
        assert(s.filter(keep).to_multiset() =~= s.to_multiset().filter(keep));
    }
}

/// No element of `high` has to come before one of `low`.
spec fn apart<T: Ranked>(low: Seq<T::V>, high: Seq<T::V>) -> bool {
    forall|i: int, j: int|
        0 <= i < low.len() && 0 <= j < high.len() ==> !T::ranks_before(
            #[trigger] high[j],
            #[trigger] low[i],
        )
}

/// No element has to come before a later one.
spec fn in_reverse_order<T: Ranked>(s: Seq<T::V>) -> bool {
    forall|i: int, j: int| 0 <= i < j < s.len() ==> !T::ranks_before(#[trigger] s[i], #[trigger] s[j])
}

proof fn lemma_views_drop_last<T: View>(s: Seq<T>)
    requires
        s.len() > 0,
    ensures
        views(s.drop_last()) == views(s).drop_last(),
        views(s).last() == s.last()@,
        views(s).to_multiset() == views(s.drop_last()).to_multiset().insert(s.last()@),
{
    assert(views(s.drop_last()) =~= views(s).drop_last());
    assert(views(s).drop_last().push(views(s).last()) =~= views(s));
    vstd::seq_lib::to_multiset_build(views(s).drop_last(), views(s).last());
}

proof fn lemma_views_push<T: View>(s: Seq<T>, x: T)
    ensures
        views(s.push(x)) == views(s).push(x@),
        views(s.push(x)).to_multiset() == views(s).to_multiset().insert(x@),
{
    assert(views(s.push(x)) =~= views(s).push(x@));
    vstd::seq_lib::to_multiset_build(views(s), x@);
}

/// Takes the last element off `from`, which nothing in `from` has to come after, and puts it at
/// the end of `onto`.
fn move_last<T: Ranked>(from: &mut Vec<T>, onto: &mut Vec<T>)
    requires
        old(from)@.len() > 0,
        in_order::<T>(views(old(from)@)),
        in_reverse_order::<T>(views(old(onto)@)),
        apart::<T>(views(old(from)@), views(old(onto)@)),
    ensures
        final(from)@ == old(from)@.drop_last(),
        final(onto)@ == old(onto)@.push(old(from)@.last()),
        in_order::<T>(views(final(from)@)),
        in_reverse_order::<T>(views(final(onto)@)),
        apart::<T>(views(final(from)@), views(final(onto)@)),
        views(final(from)@).to_multiset().add(views(final(onto)@).to_multiset()) == views(
            old(from)@,
        ).to_multiset().add(views(old(onto)@).to_multiset()),
{
    let ghost source = from@;
    let ghost target = onto@;
    match from.pop() {
        Some(x) => {
            onto.push(x);
            proof {
                lemma_views_drop_last(source);
                lemma_views_push(target, x);
                let a = views(source.drop_last()).to_multiset();
                let b = views(target).to_multiset();
                assert(a.add(b.insert(x@)) =~= a.insert(x@).add(b));
                assert(views(source)[source.len() - 1] == x@);
            }
        },
        None => {},
    }
}

fn reversed<T: Ranked>(mut v: Vec<T>) -> (result: Vec<T>)
    requires
        in_reverse_order::<T>(views(v@)),
    ensures
        in_order::<T>(views(result@)),
        views(result@).to_multiset() == views(v@).to_multiset(),
{
    let ghost all = v@;
    let mut result: Vec<T> = Vec::new();
    while v.len() > 0
        invariant
            v@.len() + result@.len() == all.len(),
            v@ == all.take(v@.len() as int),
            forall|i: int|
                0 <= i < result@.len() ==> #[trigger] result@[i] == all[all.len() - 1 - i],
        decreases v@.len(),
    {
        match v.pop() {
            Some(x) => {
                result.push(x);
            },
            None => {},
        }
    }
    proof {
        assert(views(result@) =~= views(all).reverse());
        views(all).lemma_reverse_to_multiset();
    }
    result
}

fn merge<T: Ranked>(mut a: Vec<T>, mut b: Vec<T>) -> (result: Vec<T>)
    requires
        in_order::<T>(views(a@)),
        in_order::<T>(views(b@)),
    ensures
        in_order::<T>(views(result@)),
        views(result@).to_multiset() == views(a@).to_multiset().add(views(b@).to_multiset()),
{
    let ghost total = views(a@).to_multiset().add(views(b@).to_multiset());
    let mut down: Vec<T> = Vec::new();
    proof {
        assert(views(down@) =~= Seq::<T::V>::empty());
        views(down@).to_multiset_ensures();
        assert(views(down@).to_multiset() =~= vstd::multiset::Multiset::empty());
        assert(total.add(views(down@).to_multiset()) =~= total);
    }
    while a.len() > 0 || b.len() > 0
        invariant
            in_order::<T>(views(a@)),
            in_order::<T>(views(b@)),
            in_reverse_order::<T>(views(down@)),
            apart::<T>(views(a@), views(down@)),
            apart::<T>(views(b@), views(down@)),
            views(a@).to_multiset().add(views(b@).to_multiset()).add(views(down@).to_multiset())
                == total,
        decreases a@.len() + b@.len(),
    {
        let from_a: bool = if a.len() == 0 {
            false
        } else if b.len() == 0 {
            true
        } else {
            b[b.len() - 1].is_ranked_before(&a[a.len() - 1])
        };
        let ghost ma = views(a@).to_multiset();
        let ghost mb = views(b@).to_multiset();
        let ghost md = views(down@).to_multiset();
        let ghost va = views(a@);
        let ghost vb = views(b@);
        let ghost vd = views(down@);
        if from_a {
            let ghost top = a@.last()@;
            move_last(&mut a, &mut down);
            proof {
                assert(views(down@) =~= vd.push(top));
                assert(va.last() == top);
                assert forall|i: int, j: int|
                    0 <= i < vb.len() && 0 <= j < views(down@).len() implies !T::ranks_before(
                    #[trigger] views(down@)[j],
                    #[trigger] vb[i],
                ) by {
                    if j == vd.len() {
                        T::ranks_are_asymmetric(vb.last(), top);
                        if i < vb.len() - 1 {
                            T::ranks_are_transitive(vb[i], vb.last(), top);
                        }
                    }
                }
                assert(ma.add(mb).add(md) =~= mb.add(ma.add(md)));
                let na = views(a@).to_multiset();
                let nd = views(down@).to_multiset();
                assert(na.add(mb).add(nd) =~= mb.add(na.add(nd)));
            }
        } else {
            let ghost top = b@.last()@;
            move_last(&mut b, &mut down);
            proof {
                assert(views(down@) =~= vd.push(top));
                assert(vb.last() == top);
                assert forall|i: int, j: int|
                    0 <= i < va.len() && 0 <= j < views(down@).len() implies !T::ranks_before(
                    #[trigger] views(down@)[j],
                    #[trigger] va[i],
                ) by {
                    if j == vd.len() {
                        if i < va.len() - 1 {
                            T::ranks_are_transitive(va[i], va.last(), top);
                        }
                    }
                }
                assert(ma.add(mb).add(md) =~= ma.add(mb.add(md)));
                let nb = views(b@).to_multiset();
                let nd = views(down@).to_multiset();
                assert(ma.add(nb).add(nd) =~= ma.add(nb.add(nd)));
            }
        }
    }
    proof {
        assert(views(a@) =~= Seq::<T::V>::empty());
        assert(views(b@) =~= Seq::<T::V>::empty());
        views(a@).to_multiset_ensures();
        assert(views(a@).to_multiset() =~= vstd::multiset::Multiset::empty());
        assert(total =~= views(down@).to_multiset());
    }
    reversed(down)
}

/// Sorts: the same elements, none of them after one that it has to come before.
pub fn sort<T: Ranked>(mut v: Vec<T>) -> (sorted: Vec<T>)
    ensures
        in_order::<T>(views(sorted@)),
        views(sorted@).to_multiset() == views(v@).to_multiset(),
        sorted@.len() == v@.len(),
    decreases v@.len(),
{
    let ghost all = v@;
    if v.len() < 2 {
        return v;
    }
    let half: usize = v.len() / 2;
    let rest = v.split_off(half);
    proof {
        assert(views(all) =~= views(v@) + views(rest@));
        vstd::seq_lib::lemma_multiset_commutative(views(v@), views(rest@));
    }
    let sorted = merge(sort(v), sort(rest));
    proof {
        views(sorted@).to_multiset_ensures();
        views(all).to_multiset_ensures();
    }
    sorted
}

/// The views of a list are those of its elements, one by one.
pub proof fn law_views<T: View>(list: Seq<T>)
    ensures
        views(list).len() == list.len(),
        forall|i: int| 0 <= i < list.len() ==> #[trigger] views(list)[i] == list[i]@,
{
}

/// A list is in order exactly if nothing in it has to come before what stands earlier.
pub proof fn law_in_order<T: Ranked>(list: Seq<T::V>)
    ensures
        in_order::<T>(list) <==> forall|i: int, j: int|
            0 <= i < j < list.len() ==> !T::ranks_before(#[trigger] list[j], #[trigger] list[i]),
{
}

} // verus!
