//! Sorting with a caller's comparison.
use std::cmp::Ordering;
use vstd::prelude::*;

verus! {

/// Adjacent elements `a`, `b` were seen in order: a call `greater(a, b)`
/// answered `false`, or a call `greater(b, a)` answered `true`.
pub open spec fn seen_in_order<T, G: Fn(&T, &T) -> bool>(greater: G, a: T, b: T) -> bool {
    ||| exists|r: bool| #[trigger] greater.ensures((&a, &b), r) && !r
    ||| exists|r: bool| #[trigger] greater.ensures((&b, &a), r) && r
}

/// A call `greater(a, b)` answered `true`.
pub open spec fn seen_greater<T, G: Fn(&T, &T) -> bool>(greater: G, a: T, b: T) -> bool {
    exists|r: bool| #[trigger] greater.ensures((&a, &b), r) && r
}

/// `after` is `before` reordered by `p`: its element at `k` is the one of
/// `before` at `p[k]`, and no index of `before` is used twice.
pub open spec fn reorders<T>(p: Seq<int>, before: Seq<T>, after: Seq<T>) -> bool {
    &&& p.len() == before.len()
    &&& after.len() == before.len()
    &&& forall|k: int| 0 <= k < p.len() ==> 0 <= #[trigger] p[k] < before.len() && after[k] == before[p[k]]
    &&& forall|k: int, l: int| 0 <= k < l < p.len() ==> #[trigger] p[k] != #[trigger] p[l]
}

/// Placing the next element `x` (at `t` in `orig`) at `j`, after the last
/// placed element not greater than it, keeps what the sort maintains.
proof fn lemma_insert_step<T, G: Fn(&T, &T) -> bool>(
    greater: G,
    orig: Seq<T>,
    prev: Seq<T>,
    pprev: Seq<int>,
    x: T,
    j: int,
    t: int,
)
    requires
        0 <= t < orig.len(),
        x == orig[t],
        prev.len() == t,
        pprev.len() == t,
        0 <= j <= t,
        forall|k: int| 0 <= k < t ==> 0 <= #[trigger] pprev[k] < t && prev[k] == orig[pprev[k]],
        forall|k: int, l: int| 0 <= k < l < t ==> #[trigger] pprev[k] != #[trigger] pprev[l],
        forall|k: int, l: int|
            #![trigger pprev[k], pprev[l]]
            0 <= k < l < t && pprev[k] > pprev[l] ==> seen_greater(greater, prev[l], prev[k]),
        forall|i: int| 0 <= i < t - 1 ==> seen_in_order(greater, #[trigger] prev[i], prev[i + 1]),
        forall|i: int| j <= i < t ==> seen_greater(greater, #[trigger] prev[i], x),
        j > 0 ==> exists|r: bool| #[trigger] greater.ensures((&prev[j - 1], &x), r) && !r,
    ensures
        ({
            let out = prev.insert(j, x);
            let perm = pprev.insert(j, t);
            &&& forall|i: int| 0 <= i < t ==> seen_in_order(greater, #[trigger] out[i], out[i + 1])
            &&& forall|k: int| 0 <= k < t + 1 ==> 0 <= #[trigger] perm[k] < t + 1 && out[k] == orig[perm[k]]
            &&& forall|k: int, l: int| 0 <= k < l < t + 1 ==> #[trigger] perm[k] != #[trigger] perm[l]
            &&& forall|k: int, l: int|
                #![trigger perm[k], perm[l]]
                0 <= k < l < t + 1 && perm[k] > perm[l] ==> seen_greater(greater, out[l], out[k])
        }),
{
    let out = prev.insert(j, x);
    let perm = pprev.insert(j, t);
    assert forall|i: int| 0 <= i < t implies seen_in_order(greater, #[trigger] out[i], out[i + 1]) by {
        if i < j - 1 {
            assert(out[i] == prev[i] && out[i + 1] == prev[i + 1]);
        } else if i == j - 1 {
            assert(out[i] == prev[i] && out[i + 1] == x);
        } else if i == j {
            assert(out[i] == x && out[i + 1] == prev[i]);
            assert(seen_greater(greater, prev[i], x));
        } else {
            assert(out[i] == prev[i - 1] && out[i + 1] == prev[i]);
            assert(seen_in_order(greater, prev[i - 1], prev[i]));
        }
    }
    assert forall|k: int| 0 <= k < t + 1 implies 0 <= #[trigger] perm[k] < t + 1 && out[k] == orig[perm[k]] by {
        if k < j {
            assert(perm[k] == pprev[k] && out[k] == prev[k]);
        } else if k > j {
            assert(perm[k] == pprev[k - 1] && out[k] == prev[k - 1]);
        }
    }
    assert forall|k: int, l: int| 0 <= k < l < t + 1 implies #[trigger] perm[k] != #[trigger] perm[l] by {
        let kk = if k < j { k } else { k - 1 };
        let ll = if l < j { l } else { l - 1 };
        if k != j && l != j {
            assert(perm[k] == pprev[kk] && perm[l] == pprev[ll]);
            assert(pprev[kk] != pprev[ll]);
        } else if k == j {
            assert(perm[l] == pprev[ll]);
            assert(pprev[ll] < t);
        } else {
            assert(perm[k] == pprev[kk]);
            assert(pprev[kk] < t);
        }
    }
    assert forall|k: int, l: int|
        #![trigger perm[k], perm[l]]
        0 <= k < l < t + 1 && perm[k] > perm[l] implies seen_greater(greater, out[l], out[k]) by {
        let kk = if k < j { k } else { k - 1 };
        let ll = if l < j { l } else { l - 1 };
        if k != j && l != j {
            assert(perm[k] == pprev[kk] && perm[l] == pprev[ll]);
            assert(out[k] == prev[kk] && out[l] == prev[ll]);
            assert(pprev[kk] > pprev[ll]);
        } else if k == j {
            assert(out[k] == x && out[l] == prev[ll]);
            assert(seen_greater(greater, prev[ll], x));
        } else {
            assert(perm[l] == t);
            assert(perm[k] == pprev[kk]);
            assert(pprev[kk] < t);
        }
    }
}

/// Insertion sort: each element, in turn, goes after the last element
/// already placed that is not greater than it. Two elements change their
/// relative order only where the one that came first was seen greater than
/// the other.
#[verifier::spinoff_prover]
fn insertion_sort<T, G: Fn(&T, &T) -> bool>(v: &mut Vec<T>, greater: G)
    requires
        forall|a: &T, b: &T| #[trigger] greater.requires((a, b)),
    ensures
        final(v)@.to_multiset() == old(v)@.to_multiset(),
        forall|i: int| 0 <= i < final(v)@.len() - 1 ==> seen_in_order(greater, #[trigger] final(v)@[i], final(v)@[i + 1]),
        exists|p: Seq<int>|
            #[trigger] reorders(p, old(v)@, final(v)@) && forall|k: int, l: int|
                #![trigger p[k], p[l]]
                0 <= k < l < p.len() && p[k] > p[l] ==> seen_greater(greater, final(v)@[l], final(v)@[k]),
{
    broadcast use vstd::seq_lib::group_to_multiset_ensures;

    let ghost orig = old(v)@;
    let ghost mut perm: Seq<int> = Seq::empty();
    let ghost mut t: int = 0;
    let mut out: Vec<T> = Vec::new();
    assert(out@.to_multiset() =~= vstd::multiset::Multiset::<T>::empty());
    assert(out@.to_multiset().add(v@.to_multiset()) =~= orig.to_multiset());
    assert(v@ =~= orig.skip(0));
    while v.len() > 0
        invariant
            forall|a: &T, b: &T| #[trigger] greater.requires((a, b)),
            out@.to_multiset().add(v@.to_multiset()) == orig.to_multiset(),
            forall|i: int| 0 <= i < out@.len() - 1 ==> seen_in_order(greater, #[trigger] out@[i], out@[i + 1]),
            0 <= t <= orig.len(),
            v@ == orig.skip(t),
            perm.len() == t,
            out@.len() == t,
            forall|k: int| 0 <= k < t ==> 0 <= #[trigger] perm[k] < t && out@[k] == orig[perm[k]],
            forall|k: int, l: int| 0 <= k < l < t ==> #[trigger] perm[k] != #[trigger] perm[l],
            forall|k: int, l: int|
                #![trigger perm[k], perm[l]]
                0 <= k < l < t && perm[k] > perm[l] ==> seen_greater(greater, out@[l], out@[k]),
        decreases v@.len(),
    {
        let ghost before = v@;
        let x = v.remove(0);
        assert(before[0] == x);
        assert(x == orig[t]);
        assert(v@ == before.remove(0));
        assert(v@ =~= orig.skip(t + 1));
        proof {
            vstd::seq_lib::to_multiset_remove(before, 0);
        }
        assert(v@.to_multiset() == before.to_multiset().remove(x));
        let mut j: usize = out.len();
        let mut done = false;
        while j > 0 && !done
            invariant
                j <= out@.len(),
                forall|a: &T, b: &T| #[trigger] greater.requires((a, b)),
                forall|i: int| j <= i < out@.len() ==> seen_greater(greater, #[trigger] out@[i], x),
                done ==> j > 0 && exists|r: bool| #[trigger] greater.ensures((&out@[j - 1], &x), r) && !r,
            decreases j + (if done { 0int } else { 1int }),
        {
            let g = greater(&out[j - 1], &x);
            if g {
                j -= 1;
            } else {
                done = true;
            }
        }
        let ghost prev = out@;
        let ghost pprev = perm;
        out.insert(j, x);
        proof {
            perm = pprev.insert(j as int, t);
            lemma_insert_step(greater, orig, prev, pprev, x, j as int, t);
        }
        assert(out@ == prev.insert(j as int, x));
        proof {
            vstd::seq_lib::to_multiset_insert(prev, j as int, x);
            t = t + 1;
        }
        assert(out@.to_multiset() == prev.to_multiset().insert(x));
        assert(before.to_multiset().count(x) > 0) by {
            assert(before.contains(x)) by {
                assert(before[0] == x);
            }
            vstd::seq_lib::to_multiset_contains(before, x);
        }
        assert(out@.to_multiset().add(v@.to_multiset()) =~= orig.to_multiset()) by {
            broadcast use vstd::multiset::group_multiset_axioms;

            assert(prev.to_multiset().add(before.to_multiset()) == orig.to_multiset());
        }
    }
    assert(v@.to_multiset() =~= vstd::multiset::Multiset::<T>::empty()) by {
        assert(v@ =~= Seq::<T>::empty());
    }
    assert(out@.to_multiset() =~= orig.to_multiset()) by {
        broadcast use vstd::multiset::group_multiset_axioms;

    }
    assert(t == orig.len());
    assert(reorders(perm, orig, out@));
    *v = out;
}

/// Neighbours `a`, `b` seen in order by a comparison: `compare(a, b)`
/// answered other than `Greater`, or `compare(b, a)` answered `Greater`.
pub open spec fn compared_in_order<T, F: Fn(&T, &T) -> Ordering>(compare: F, a: T, b: T) -> bool {
    ||| exists|o: Ordering| #[trigger] compare.ensures((&a, &b), o) && !(o matches Ordering::Greater)
    ||| exists|o: Ordering| #[trigger] compare.ensures((&b, &a), o) && (o matches Ordering::Greater)
}

/// A call `compare(a, b)` answered `Greater`.
pub open spec fn compared_greater<T, F: Fn(&T, &T) -> Ordering>(compare: F, a: T, b: T) -> bool {
    exists|o: Ordering| #[trigger] compare.ensures((&a, &b), o) && (o matches Ordering::Greater)
}

/// Sorts with a caller's comparison, keeping the order of elements that
/// compare equal (each goes after those before it that are not greater).
/// The result is the input reordered; each two neighbours `a`, `b` were
/// seen in order, by `compare(a, b)` answering other than `Greater` or
/// `compare(b, a)` answering `Greater`; and two elements change their
/// relative order only where `compare` answered `Greater` for the one that
/// came first against the other. For a comparison that always gives one
/// answer and answers `Greater` one way exactly when it answers `Less` the
/// other, the result is sorted, and elements that compare `Equal` keep
/// their order.
pub fn stable_sort_by<T, F: Fn(&T, &T) -> Ordering>(values: &mut Vec<T>, compare: F)
    requires
        forall|a: &T, b: &T| #[trigger] compare.requires((a, b)),
    ensures
        final(values)@.to_multiset() == old(values)@.to_multiset(),
        forall|i: int|
            0 <= i < final(values)@.len() - 1 ==> compared_in_order(compare, #[trigger] final(values)@[i], final(values)@[i + 1]),
        exists|p: Seq<int>|
            #[trigger] reorders(p, old(values)@, final(values)@) && forall|k: int, l: int|
                #![trigger p[k], p[l]]
                0 <= k < l < p.len() && p[k] > p[l] ==> compared_greater(compare, final(values)@[l], final(values)@[k]),
{
    let ghost before = values@;
    let c = &compare;
    let greater = |a: &T, b: &T| -> (r: bool)
        requires
            c.requires((a, b)),
        ensures
            exists|o: Ordering| #[trigger] c.ensures((a, b), o) && (r <==> (o matches Ordering::Greater)),
        {
            match c(a, b) {
                Ordering::Greater => true,
                _ => false,
            }
        };
    insertion_sort(values, greater);
    assert forall|i: int| 0 <= i < values@.len() - 1 implies compared_in_order(compare, #[trigger] values@[i], values@[i + 1]) by {
        let a = values@[i];
        let b = values@[i + 1];
        assert(seen_in_order(greater, a, b));
        if exists|r: bool| #[trigger] greater.ensures((&a, &b), r) && !r {
            let r = choose|r: bool| #[trigger] greater.ensures((&a, &b), r) && !r;
            let o = choose|o: Ordering| #[trigger] c.ensures((&a, &b), o) && (r <==> (o matches Ordering::Greater));
            assert(compare.ensures((&a, &b), o));
        } else {
            let r = choose|r: bool| #[trigger] greater.ensures((&b, &a), r) && r;
            let o = choose|o: Ordering| #[trigger] c.ensures((&b, &a), o) && (r <==> (o matches Ordering::Greater));
            assert(compare.ensures((&b, &a), o));
        }
    }
    let ghost p = choose|p: Seq<int>|
        #[trigger] reorders(p, before, values@) && forall|k: int, l: int|
            #![trigger p[k], p[l]]
            0 <= k < l < p.len() && p[k] > p[l] ==> seen_greater(greater, values@[l], values@[k]);
    assert forall|k: int, l: int|
        #![trigger p[k], p[l]]
        0 <= k < l < p.len() && p[k] > p[l] implies compared_greater(compare, values@[l], values@[k]) by {
        let a = values@[l];
        let b = values@[k];
        assert(seen_greater(greater, a, b));
        let r = choose|r: bool| #[trigger] greater.ensures((&a, &b), r) && r;
        let o = choose|o: Ordering| #[trigger] c.ensures((&a, &b), o) && (r <==> (o matches Ordering::Greater));
        assert(compare.ensures((&a, &b), o));
    }
    assert(reorders(p, before, values@));
}

} // verus!
