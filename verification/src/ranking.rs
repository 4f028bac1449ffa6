//! Sorting by a strict order that a type declares on its view.
use vstd::prelude::*;

verus! {

/// A family of strict orders on the view of a type, one for each value of `Order`,
/// with an executable test that decides it.
pub trait Ranked: View + Sized {
    type Order: Copy;

    spec fn rank_lt(order: Self::Order, a: Self::V, b: Self::V) -> bool;

    proof fn lemma_rank_lt_strict(order: Self::Order, a: Self::V, b: Self::V, c: Self::V)
        ensures
            !Self::rank_lt(order, a, a),
            Self::rank_lt(order, a, b) && Self::rank_lt(order, b, c) ==> Self::rank_lt(order, a, c),
    ;

    fn ranks_before(order: Self::Order, a: &Self, b: &Self) -> (r: bool)
        ensures
            r == Self::rank_lt(order, a@, b@),
    ;
}

/// The views of the elements of `s`.
pub open spec fn views<T: View>(s: Seq<T>) -> Seq<T::V> {
    s.map_values(|x: T| x@)
}

/// Each element ranks strictly before every later one.
pub open spec fn strictly_ranked<T: Ranked>(order: T::Order, s: Seq<T::V>) -> bool {
    forall|i: int, j: int| 0 <= i < j < s.len() ==> #[trigger] T::rank_lt(order, s[i], s[j])
}

/// Any two elements at different positions are ordered one way or the other.
pub open spec fn pairwise_comparable<T: Ranked>(order: T::Order, s: Seq<T::V>) -> bool {
    forall|i: int, j: int|
        0 <= i < s.len() && 0 <= j < s.len() && i != j ==> T::rank_lt(order, s[i], s[j])
            || T::rank_lt(order, s[j], s[i])
}

/// Two strictly ranked sequences with the same elements are equal.
pub proof fn lemma_strictly_ranked_unique<T: Ranked>(order: T::Order, a: Seq<T::V>, b: Seq<T::V>)
    requires
        strictly_ranked::<T>(order, a),
        strictly_ranked::<T>(order, b),
        forall|v: T::V| a.contains(v) <==> b.contains(v),
    ensures
        a == b,
    decreases a.len() + b.len(),
{
    if a.len() == 0 {
        if b.len() > 0 {
            assert(b.contains(b[0]));
        }
        assert(a =~= b);
    } else if b.len() == 0 {
        assert(a.contains(a[0]));
    } else {
        // the first elements are the least of both
        assert(a.contains(a[0]));
        assert(b.contains(b[0]));
        let ia = choose|i: int| 0 <= i < b.len() && #[trigger] b[i] == a[0];
        let ib = choose|i: int| 0 <= i < a.len() && #[trigger] a[i] == b[0];
        if ia > 0 {
            assert(T::rank_lt(order, b[0], b[ia]));
            if ib > 0 {
                assert(T::rank_lt(order, a[0], a[ib]));
                T::lemma_rank_lt_strict(order, b[0], a[0], b[0]);
            } else {
                T::lemma_rank_lt_strict(order, b[0], b[0], b[0]);
            }
        } else if ib > 0 {
            T::lemma_rank_lt_strict(order, a[0], a[0], a[0]);
        }
        assert(a[0] == b[0]);
        let a1 = a.drop_first();
        let b1 = b.drop_first();
        assert forall|v: T::V| a1.contains(v) <==> b1.contains(v) by {
            if a1.contains(v) {
                let i = choose|i: int| 0 <= i < a1.len() && #[trigger] a1[i] == v;
                assert(a.contains(v));
                assert(T::rank_lt(order, a[0], a[i + 1]));
                T::lemma_rank_lt_strict(order, v, v, v);
                let j = choose|j: int| 0 <= j < b.len() && #[trigger] b[j] == v;
                assert(j != 0);
                assert(b1[j - 1] == v);
            }
            if b1.contains(v) {
                let i = choose|i: int| 0 <= i < b1.len() && #[trigger] b1[i] == v;
                assert(b.contains(v));
                assert(T::rank_lt(order, b[0], b[i + 1]));
                T::lemma_rank_lt_strict(order, v, v, v);
                let j = choose|j: int| 0 <= j < a.len() && #[trigger] a[j] == v;
                assert(j != 0);
                assert(a1[j - 1] == v);
            }
        }
        lemma_strictly_ranked_unique::<T>(order, a1, b1);
        assert(a =~= seq![a[0]] + a1);
        assert(b =~= seq![b[0]] + b1);
    }
}

/// Sorts `items` by the strict order `order`, by insertion.
pub fn sort_ranked<T: Ranked>(order: T::Order, items: Vec<T>) -> (r: Vec<T>)
    requires
        pairwise_comparable::<T>(order, views(items@)),
    ensures
        r@.len() == items@.len(),
        strictly_ranked::<T>(order, views(r@)),
        forall|v: T::V| views(r@).contains(v) <==> views(items@).contains(v),
{
    let ghost orig = views(items@);
    let mut rest = items;
    let mut out: Vec<T> = Vec::new();
    while rest.len() > 0
        invariant
            views(rest@) == orig.take(rest@.len() as int),
            rest@.len() <= orig.len(),
            out@.len() + rest@.len() == orig.len(),
            pairwise_comparable::<T>(order, orig),
            strictly_ranked::<T>(order, views(out@)),
            forall|v: T::V|
                views(out@).contains(v) <==> orig.skip(rest@.len() as int).contains(v),
        decreases rest@.len(),
    {
        let ghost k = rest@.len() - 1;
        let ghost old_rest = rest@;
        let x = rest.pop().unwrap();
        assert(orig[k] == x@) by {
            assert(old_rest == rest@.push(x));
            assert(views(old_rest)[k] == old_rest[k]@);
            assert(orig.take(k + 1)[k] == orig[k]);
        }
        assert(views(rest@) =~= orig.take(k));
        let ghost before = views(out@);
        // every element already placed sits at another position of `orig`
        assert forall|i: int| 0 <= i < before.len() implies T::rank_lt(order, before[i], x@)
            || T::rank_lt(order, x@, before[i]) by {
            assert(before.contains(before[i]));
            assert(orig.skip(k + 1).contains(before[i]));
            let j = choose|j: int| 0 <= j < orig.skip(k + 1).len() && #[trigger] orig.skip(k + 1)[j] == before[i];
            assert(orig[k + 1 + j] == before[i]);
        }
        let mut pos: usize = 0;
        while pos < out.len() && !T::ranks_before(order, &x, &out[pos])
            invariant
                before == views(out@),
                pos <= out@.len(),
                forall|i: int| 0 <= i < pos ==> #[trigger] T::rank_lt(order, before[i], x@),
                forall|i: int| 0 <= i < before.len() ==> T::rank_lt(order, before[i], x@)
                    || T::rank_lt(order, x@, before[i]),
            decreases out@.len() - pos,
        {
            assert(before[pos as int] == out@[pos as int]@);
            pos = pos + 1;
        }
        proof {
            if pos < out@.len() {
                assert(before[pos as int] == out@[pos as int]@);
            }
        }
        out.insert(pos, x);
        proof {
            let after = views(out@);
            assert(after =~= before.insert(pos as int, x@));
            before.insert_ensures(pos as int, x@);
            assert forall|i: int, j: int| 0 <= i < j < after.len() implies #[trigger] T::rank_lt(
                order,
                after[i],
                after[j],
            ) by {
                if j < pos {
                } else if i < pos && j == pos {
                } else if i < pos {
                    T::lemma_rank_lt_strict(order, after[i], x@, after[j]);
                    T::lemma_rank_lt_strict(order, x@, before[pos as int], before[j - 1]);
                    if j - 1 > pos {
                        assert(T::rank_lt(order, before[pos as int], before[j - 1]));
                    }
                } else if i == pos {
                    if j - 1 > pos {
                        assert(T::rank_lt(order, before[pos as int], before[j - 1]));
                        T::lemma_rank_lt_strict(order, x@, before[pos as int], before[j - 1]);
                    }
                } else {
                }
            }
            assert(orig.skip(k) =~= seq![x@] + orig.skip(k + 1));
            assert forall|v: T::V| after.contains(v) <==> orig.skip(k).contains(v) by {
                if after.contains(v) {
                    let i = choose|i: int| 0 <= i < after.len() && #[trigger] after[i] == v;
                    if i == pos {
                        assert(orig.skip(k)[0] == x@);
                    } else {
                        if i < pos {
                            assert(before.contains(before[i]));
                        } else {
                            assert(before.contains(before[i - 1]));
                        }
                        assert(orig.skip(k + 1).contains(v));
                        let j = choose|j: int| 0 <= j < orig.skip(k + 1).len() && #[trigger] orig.skip(k + 1)[j] == v;
                        assert(orig.skip(k)[j + 1] == v);
                    }
                }
                if orig.skip(k).contains(v) {
                    if v == x@ {
                        assert(after[pos as int] == x@);
                    } else {
                        let i = choose|i: int| 0 <= i < orig.skip(k).len() && #[trigger] orig.skip(k)[i] == v;
                        assert(orig.skip(k + 1)[i - 1] == v);
                        assert(orig.skip(k + 1).contains(v));
                        assert(before.contains(v));
                        let b = choose|b: int| 0 <= b < before.len() && #[trigger] before[b] == v;
                        if b < pos {
                            assert(after[b] == v);
                        } else {
                            assert(after[b + 1] == v);
                        }
                    }
                }
            }
        }
    }
    assert(orig.skip(0) =~= orig);
    assert(orig =~= views(items@));
    out
}

/// Where `x` goes in a strictly ranked sequence: before the first element that it
/// ranks before.
pub open spec fn rank_insert_pos<T: Ranked>(order: T::Order, s: Seq<T::V>, x: T::V) -> int
    decreases s.len(),
{
    if s.len() == 0 {
        0
    } else if T::rank_lt(order, x, s[0]) {
        0
    } else {
        1 + rank_insert_pos::<T>(order, s.drop_first(), x)
    }
}

pub proof fn lemma_rank_insert_pos<T: Ranked>(order: T::Order, s: Seq<T::V>, x: T::V)
    ensures
        0 <= rank_insert_pos::<T>(order, s, x) <= s.len(),
        forall|j: int| 0 <= j < rank_insert_pos::<T>(order, s, x) ==> !T::rank_lt(order, x, #[trigger] s[j]),
        rank_insert_pos::<T>(order, s, x) < s.len() ==> T::rank_lt(order, x, s[rank_insert_pos::<T>(order, s, x)]),
    decreases s.len(),
{
    if s.len() > 0 && !T::rank_lt(order, x, s[0]) {
        let t = s.drop_first();
        lemma_rank_insert_pos::<T>(order, t, x);
        assert forall|j: int| 0 <= j < rank_insert_pos::<T>(order, s, x) implies !T::rank_lt(order, x, #[trigger] s[j]) by {
            if j > 0 {
                assert(s[j] == t[j - 1]);
            }
        }
    }
}

/// The elements of `s` sorted by `order`, those that neither ranks before the
/// other keeping the order they had in `s`: each element in turn joins the sorted
/// earlier ones after every element that it does not rank before.
pub open spec fn stable_sorted<T: Ranked>(order: T::Order, s: Seq<T::V>) -> Seq<T::V>
    decreases s.len(),
{
    if s.len() == 0 {
        Seq::empty()
    } else {
        let before = stable_sorted::<T>(order, s.drop_last());
        before.insert(rank_insert_pos::<T>(order, before, s.last()), s.last())
    }
}

/// No element ranks before an earlier one.
pub open spec fn sorted_by<T: Ranked>(order: T::Order, s: Seq<T::V>) -> bool {
    forall|i: int, j: int| 0 <= i < j < s.len() ==> !T::rank_lt(order, #[trigger] s[j], #[trigger] s[i])
}

/// A stable sort sorts, and it keeps every element as often as it occurs.
pub proof fn lemma_stable_sorted<T: Ranked>(order: T::Order, s: Seq<T::V>)
    ensures
        sorted_by::<T>(order, stable_sorted::<T>(order, s)),
        stable_sorted::<T>(order, s).to_multiset() == s.to_multiset(),
    decreases s.len(),
{
    broadcast use vstd::seq_lib::to_multiset_build, vstd::seq_lib::to_multiset_insert;

    if s.len() > 0 {
        let t = s.drop_last();
        let x = s.last();
        lemma_stable_sorted::<T>(order, t);
        let before = stable_sorted::<T>(order, t);
        lemma_rank_insert_pos::<T>(order, before, x);
        let pos = rank_insert_pos::<T>(order, before, x);
        let after = before.insert(pos, x);
        before.insert_ensures(pos, x);
        assert forall|i: int, j: int| 0 <= i < j < after.len() implies !T::rank_lt(order, #[trigger] after[j], #[trigger] after[i]) by {
            if j < pos {
            } else if i < pos && j == pos {
            } else if i < pos {
            } else if i == pos {
                // after[j] is before[j - 1], which comes at or after before[pos]
                T::lemma_rank_lt_strict(order, before[j - 1], x, before[pos]);
                T::lemma_rank_lt_strict(order, before[pos], x, before[pos]);
            } else {
            }
        }
        assert(s =~= t.push(x));
    } else {
        assert(stable_sorted::<T>(order, s) =~= s);
    }
}

/// Sorts `items` by `order`, keeping the order of those that neither ranks before
/// the other, as a stable sort does.
pub fn sort_stable<T: Ranked>(order: T::Order, items: Vec<T>) -> (r: Vec<T>)
    ensures
        views(r@) == stable_sorted::<T>(order, views(items@)),
{
    let ghost orig = views(items@);
    let mut out: Vec<T> = Vec::new();
    let mut rest = items;
    let mut taken: Vec<T> = Vec::new();
    // take the items out from the back, then insert them front to back
    while rest.len() > 0
        invariant
            views(rest@) + views(taken@).reverse() == orig,
        decreases rest@.len(),
    {
        let ghost r0 = views(rest@);
        let ghost t0 = views(taken@);
        let x = rest.pop().unwrap();
        taken.push(x);
        proof {
            assert(views(rest@) =~= r0.drop_last());
            assert(views(taken@) =~= t0.push(x@));
            assert(views(taken@).reverse() =~= seq![x@] + t0.reverse());
            assert(r0 =~= r0.drop_last().push(x@));
            assert(views(rest@) + views(taken@).reverse() =~= r0 + t0.reverse());
        }
    }
    proof {
        assert(views(rest@) =~= Seq::<T::V>::empty());
        assert(views(taken@).reverse() =~= orig);
        assert(orig.take(0) =~= Seq::<T::V>::empty());
    }
    let ghost n = orig.len();
    while taken.len() > 0
        invariant
            views(taken@).reverse() == orig.skip(n - taken@.len()),
            taken@.len() <= n,
            n == orig.len(),
            views(out@) == stable_sorted::<T>(order, orig.take(n - taken@.len())),
        decreases taken@.len(),
    {
        let ghost k = n - taken@.len();
        let ghost t0 = views(taken@);
        let x = taken.pop().unwrap();
        proof {
            assert(t0.reverse()[0] == x@);
            assert(orig.skip(k)[0] == orig[k]);
            assert(orig.take(k + 1).drop_last() =~= orig.take(k));
            assert(orig.take(k + 1).last() == orig[k]);
            assert(views(taken@) =~= t0.drop_last());
            assert(views(taken@).reverse() =~= orig.skip(k + 1)) by {
                assert(t0.reverse() =~= orig.skip(k));
                assert forall|i: int| 0 <= i < views(taken@).len() implies views(taken@).reverse()[i] == orig.skip(k + 1)[i] by {
                    assert(views(taken@).reverse()[i] == t0.reverse()[i + 1]);
                }
            }
        }
        let ghost before = views(out@);
        proof {
            lemma_rank_insert_pos::<T>(order, before, x@);
        }
        let mut pos: usize = 0;
        while pos < out.len() && !T::ranks_before(order, &x, &out[pos])
            invariant
                before == views(out@),
                pos <= out@.len(),
                pos <= rank_insert_pos::<T>(order, before, x@),
                0 <= rank_insert_pos::<T>(order, before, x@) <= before.len(),
                forall|j: int| 0 <= j < rank_insert_pos::<T>(order, before, x@) ==> !T::rank_lt(order, x@, #[trigger] before[j]),
                rank_insert_pos::<T>(order, before, x@) < before.len() ==> T::rank_lt(order, x@, before[rank_insert_pos::<T>(order, before, x@)]),
            decreases out@.len() - pos,
        {
            assert(before[pos as int] == out@[pos as int]@);
            pos = pos + 1;
        }
        proof {
            if pos < out@.len() {
                assert(before[pos as int] == out@[pos as int]@);
            }
            assert(pos == rank_insert_pos::<T>(order, before, x@));
        }
        out.insert(pos, x);
        proof {
            assert(views(out@) =~= before.insert(pos as int, x@));
        }
    }
    proof {
        assert(orig.take(n as int) =~= orig);
    }
    out
}

/// Pairwise comparable elements can be put in strictly ranked order.
pub proof fn lemma_ranked_exists<T: Ranked>(order: T::Order, s: Seq<T::V>) -> (r: Seq<T::V>)
    requires
        pairwise_comparable::<T>(order, s),
    ensures
        strictly_ranked::<T>(order, r),
        forall|v: T::V| #[trigger] r.contains(v) <==> s.contains(v),
    decreases s.len(),
{
    if s.len() == 0 {
        Seq::empty()
    } else {
        let t = s.drop_last();
        let x = s.last();
        assert(pairwise_comparable::<T>(order, t)) by {
            assert forall|i: int, j: int| 0 <= i < t.len() && 0 <= j < t.len() && i != j implies T::rank_lt(order, t[i], t[j])
                || T::rank_lt(order, t[j], t[i]) by {
                assert(t[i] == s[i] && t[j] == s[j]);
            }
        }
        let before = lemma_ranked_exists::<T>(order, t);
        lemma_rank_insert_pos::<T>(order, before, x);
        let pos = rank_insert_pos::<T>(order, before, x);
        let after = before.insert(pos, x);
        before.insert_ensures(pos, x);
        assert forall|i: int| 0 <= i < before.len() implies T::rank_lt(order, before[i], x) || T::rank_lt(order, x, before[i]) by {
            assert(before.contains(before[i]));
            assert(t.contains(before[i]));
            let k = choose|k: int| 0 <= k < t.len() && #[trigger] t[k] == before[i];
            assert(s[k] == before[i]);
            assert(s[s.len() - 1] == x);
        }
        assert forall|i: int, j: int| 0 <= i < j < after.len() implies #[trigger] T::rank_lt(order, after[i], after[j]) by {
            if j < pos {
            } else if i < pos && j == pos {
                assert(!T::rank_lt(order, x, before[i]));
            } else if i < pos {
                assert(!T::rank_lt(order, x, before[i]));
                T::lemma_rank_lt_strict(order, before[i], x, before[j - 1]);
                T::lemma_rank_lt_strict(order, x, before[pos], before[j - 1]);
            } else if i == pos {
                if j - 1 > pos {
                    T::lemma_rank_lt_strict(order, x, before[pos], before[j - 1]);
                }
            } else {
            }
        }
        assert forall|v: T::V| #[trigger] after.contains(v) <==> s.contains(v) by {
            if after.contains(v) {
                let i = choose|i: int| 0 <= i < after.len() && #[trigger] after[i] == v;
                if i == pos {
                    assert(s[s.len() - 1] == v);
                } else {
                    let b = if i < pos { i } else { i - 1 };
                    assert(before[b] == v);
                    assert(before.contains(v));
                    assert(t.contains(v));
                    let k = choose|k: int| 0 <= k < t.len() && #[trigger] t[k] == v;
                    assert(s[k] == v);
                }
            }
            if s.contains(v) {
                let k = choose|k: int| 0 <= k < s.len() && #[trigger] s[k] == v;
                if k == s.len() - 1 {
                    assert(after[pos] == v);
                } else {
                    assert(t[k] == v);
                    assert(t.contains(v));
                    assert(before.contains(v));
                    let b = choose|b: int| 0 <= b < before.len() && #[trigger] before[b] == v;
                    if b < pos {
                        assert(after[b] == v);
                    } else {
                        assert(after[b + 1] == v);
                    }
                }
            }
        }
        after
    }
}

/// The elements of `s` that satisfy `pred`, in strictly ranked order.
pub open spec fn ranked_selection<T: Ranked>(order: T::Order, s: Seq<T::V>, pred: spec_fn(T::V) -> bool) -> Seq<T::V> {
    choose|r: Seq<T::V>|
        strictly_ranked::<T>(order, r) && forall|v: T::V| #[trigger] r.contains(v) <==> (s.contains(v) && pred(v))
}

/// A strictly ranked sequence with the selected elements is the ranked selection.
pub proof fn lemma_ranked_selection_is<T: Ranked>(order: T::Order, s: Seq<T::V>, pred: spec_fn(T::V) -> bool, r: Seq<T::V>)
    requires
        strictly_ranked::<T>(order, r),
        forall|v: T::V| #[trigger] r.contains(v) <==> (s.contains(v) && pred(v)),
    ensures
        ranked_selection::<T>(order, s, pred) == r,
{
    lemma_strictly_ranked_unique::<T>(order, r, ranked_selection::<T>(order, s, pred));
}

} // verus!
