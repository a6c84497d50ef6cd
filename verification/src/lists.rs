//! Picking the elements of a list that matter and turning each into something else.

use vstd::prelude::*;

verus! {

/// What `f` makes of the elements of `s` that `keep` accepts, in order.
pub open spec fn select<A, B>(s: Seq<A>, keep: spec_fn(A) -> bool, f: spec_fn(A) -> B) -> Seq<B> {
    s.filter(keep).map_values(f)
}

/// Selecting from nothing gives nothing.
pub proof fn lemma_select_nothing<A, B>(
    s: Seq<A>,
    keep: spec_fn(A) -> bool,
    f: spec_fn(A) -> B,
)
    ensures
        select(s.take(0), keep, f) == Seq::<B>::empty(),
{
    reveal(Seq::filter);
    assert(s.take(0).filter(keep) =~= Seq::<A>::empty());
    assert(select(s.take(0), keep, f) =~= Seq::<B>::empty());
}

/// One more element adds what `f` makes of it, if `keep` accepts it.
pub proof fn lemma_select_step<A, B>(
    s: Seq<A>,
    keep: spec_fn(A) -> bool,
    f: spec_fn(A) -> B,
    i: int,
)
    requires
        0 <= i < s.len(),
    ensures
        select(s.take(i + 1), keep, f) == if keep(s[i]) {
            select(s.take(i), keep, f).push(f(s[i]))
        } else {
            select(s.take(i), keep, f)
        },
{
    reveal(Seq::filter);
    assert(s.take(i + 1).drop_last() =~= s.take(i));
    assert(s.take(i + 1).last() == s[i]);
    let before = s.take(i).filter(keep);
    if keep(s[i]) {
        assert(before.push(s[i]).map_values(f) =~= before.map_values(f).push(f(s[i])));
    }
}

/// Selecting from all of a list is selecting from the list.
pub proof fn lemma_select_all<A, B>(s: Seq<A>, keep: spec_fn(A) -> bool, f: spec_fn(A) -> B)
    ensures
        select(s.take(s.len() as int), keep, f) == select(s, keep, f),
{
    assert(s.take(s.len() as int) =~= s);
}

/// Selecting from the beginning of a list gives the beginning of the selection.
pub proof fn lemma_select_prefix<A, B>(
    s: Seq<A>,
    keep: spec_fn(A) -> bool,
    f: spec_fn(A) -> B,
    i: int,
)
    requires
        0 <= i <= s.len(),
    ensures
        select(s.take(i), keep, f).is_prefix_of(select(s, keep, f)),
    decreases s.len() - i,
{
    let low = select(s.take(i), keep, f);
    let high = select(s, keep, f);
    if i == s.len() {
        lemma_select_all(s, keep, f);
        assert(low =~= high.subrange(0, low.len() as int));
    } else {
        lemma_select_step(s, keep, f, i);
        lemma_select_prefix(s, keep, f, i + 1);
        let middle = select(s.take(i + 1), keep, f);
        assert(middle =~= high.subrange(0, middle.len() as int));
        assert(low =~= high.subrange(0, low.len() as int));
    }
}

/// Selecting with a further condition on what `f` makes is leaving out what does not meet it.
pub proof fn lemma_select_fewer<A, B>(
    s: Seq<A>,
    keep: spec_fn(A) -> bool,
    fewer: spec_fn(A) -> bool,
    f: spec_fn(A) -> B,
    meets: spec_fn(B) -> bool,
)
    requires
        forall|i: int|
            0 <= i < s.len() ==> (fewer(#[trigger] s[i]) <==> keep(s[i]) && meets(f(s[i]))),
    ensures
        select(s, fewer, f) == select(s, keep, f).filter(meets),
    decreases s.len(),
{
    reveal(Seq::filter);
    if s.len() == 0 {
        assert(select(s, fewer, f) =~= select(s, keep, f).filter(meets));
    } else {
        let rest = s.drop_last();
        let last = rest.len() as int;
        assert forall|i: int| 0 <= i < rest.len() implies (fewer(#[trigger] rest[i]) <==> keep(
            rest[i],
        ) && meets(f(rest[i]))) by {
            assert(rest[i] == s[i]);
        }
        lemma_select_fewer(rest, keep, fewer, f, meets);
        lemma_select_step(s, keep, f, last);
        lemma_select_step(s, fewer, f, last);
        lemma_select_all(s, keep, f);
        lemma_select_all(s, fewer, f);
        assert(s.take(last) =~= rest);
        let before = select(rest, keep, f);
        assert(before.push(f(s[last])).drop_last() =~= before);
        assert(fewer(s[last]) <==> keep(s[last]) && meets(f(s[last])));
    }
}

/// `b` is what `f` makes of an element of `s` that `keep` accepts.
pub open spec fn selected_from<A, B>(
    s: Seq<A>,
    keep: spec_fn(A) -> bool,
    f: spec_fn(A) -> B,
    b: B,
) -> bool {
    exists|i: int| 0 <= i < s.len() && keep(#[trigger] s[i]) && f(s[i]) == b
}

/// A selection holds what `f` makes of the accepted elements, and nothing else.
pub proof fn lemma_select_members<A, B>(
    s: Seq<A>,
    keep: spec_fn(A) -> bool,
    f: spec_fn(A) -> B,
    b: B,
)
    ensures
        select(s, keep, f).contains(b) <==> selected_from(s, keep, f, b),
{
    broadcast use vstd::seq_lib::group_filter_ensures;

    let kept = s.filter(keep);
    if select(s, keep, f).contains(b) {
        let k = choose|k: int| 0 <= k < select(s, keep, f).len() && select(s, keep, f)[k] == b;
        assert(kept.contains(kept[k]));
        s.lemma_filter_contains_rev(keep, kept[k]);
        let i = choose|i: int| 0 <= i < s.len() && s[i] == kept[k];
        assert(keep(s[i]) && f(s[i]) == b);
    }
    if selected_from(s, keep, f, b) {
        let i = choose|i: int| 0 <= i < s.len() && keep(#[trigger] s[i]) && f(s[i]) == b;
        assert(kept.contains(s[i]));
        let k = choose|k: int| 0 <= k < kept.len() && kept[k] == s[i];
        assert(select(s, keep, f)[k] == b);
    }
}

/// Where two elements of a selection come from, one before the other.
pub proof fn lemma_select_places<A, B>(
    s: Seq<A>,
    keep: spec_fn(A) -> bool,
    f: spec_fn(A) -> B,
    a: int,
    b: int,
) -> (places: (int, int))
    requires
        0 <= a < b < select(s, keep, f).len(),
    ensures
        0 <= places.0 < places.1 < s.len(),
        keep(s[places.0]) && f(s[places.0]) == select(s, keep, f)[a],
        keep(s[places.1]) && f(s[places.1]) == select(s, keep, f)[b],
    decreases s.len(),
{
    if s.len() == 0 {
        lemma_select_nothing(s, keep, f);
        lemma_select_all(s, keep, f);
        (0, 0)
    } else {
        let rest = s.drop_last();
        let last = rest.len() as int;
        lemma_select_step(s, keep, f, last);
        lemma_select_all(s, keep, f);
        assert(s.take(last) =~= rest);
        let before = select(rest, keep, f);
        if b < before.len() {
            lemma_select_places(rest, keep, f, a, b)
        } else {
            lemma_select_members(rest, keep, f, before[a]);
            assert(before.contains(before[a]));
            let i = choose|i: int|
                0 <= i < rest.len() && keep(#[trigger] rest[i]) && f(rest[i]) == before[a];
            assert(s[i] == rest[i]);
            (i, last)
        }
    }
}

} // verus!
