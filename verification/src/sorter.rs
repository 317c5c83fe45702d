//! An in-place quicksort over any type whose comparison operators follow
//! its `partial_cmp` specification and order the values totally.

use vstd::prelude::*;
use vstd::seq_lib::{group_to_multiset_ensures, lemma_multiset_commutative};
use core::cmp::Ordering;
use vstd::std_specs::cmp::PartialOrdSpec;

verus! {

/// `a` compares less than or equal to `b` under the type's ordering.
pub open spec fn le_spec<T: PartialOrd>(a: T, b: T) -> bool {
    a.partial_cmp_spec(&b) matches Some(Ordering::Less | Ordering::Equal)
}

/// The ordering is fit for sorting: the executable comparisons follow
/// `partial_cmp_spec`, and the relation is total and transitive.
pub open spec fn cmp_usable<T: PartialOrd>() -> bool {
    &&& T::obeys_partial_cmp_spec()
    &&& forall|a: T, b: T| #[trigger] le_spec(a, b) || #[trigger] le_spec(b, a)
    &&& forall|a: T, b: T, c: T|
        #[trigger] le_spec(a, b) && #[trigger] le_spec(b, c) ==> le_spec(a, c)
}

/// The elements with indices in `lo..hi` are in ascending order.
pub open spec fn sorted_between<T: PartialOrd>(s: Seq<T>, lo: int, hi: int) -> bool {
    forall|i: int, j: int| lo <= i < j < hi ==> le_spec(#[trigger] s[i], #[trigger] s[j])
}

fn swap<T: Copy>(v: &mut Vec<T>, a: usize, b: usize)
    requires
        a < old(v)@.len(),
        b < old(v)@.len(),
    ensures
        final(v)@ =~= old(v)@.update(a as int, old(v)@[b as int]).update(
            b as int,
            old(v)@[a as int],
        ),
{
    let x = v[a];
    let y = v[b];
    v[a] = y;
    v[b] = x;
}

/// Swapping two elements inside a window leaves the window's contents
/// unchanged as a multiset.
proof fn lemma_swap_subrange_multiset<T>(s: Seq<T>, lo: int, hi: int, a: int, b: int)
    requires
        0 <= lo <= a < hi <= s.len(),
        lo <= b < hi,
    ensures
        s.update(a, s[b]).update(b, s[a]).subrange(lo, hi).to_multiset() == s.subrange(
            lo,
            hi,
        ).to_multiset(),
{
    broadcast use group_to_multiset_ensures;
    broadcast use vstd::multiset::group_multiset_axioms;

    let s2 = s.update(a, s[b]).update(b, s[a]);
    let sub = s.subrange(lo, hi);
    let sub2 = s2.subrange(lo, hi);
    if a == b {
        assert(s2 =~= s);
        assert(sub2 =~= sub);
    } else {
        let ra = a - lo;
        let rb = b - lo;
        let subu = sub.update(ra, sub[rb]);
        assert(sub2 =~= subu.update(rb, sub[ra]));
        assert(subu.to_multiset() == sub.to_multiset().insert(sub[rb]).remove(sub[ra]));
        assert(subu[rb] == sub[rb]);
        assert(sub2.to_multiset() == subu.to_multiset().insert(sub[ra]).remove(subu[rb]));
        assert(sub[ra] == sub.index(ra));
        assert(sub.contains(sub[ra]));
        assert(sub.to_multiset().count(sub[ra]) > 0);
        assert(sub.contains(sub[rb]));
        assert(sub.to_multiset().count(sub[rb]) > 0);
        assert(sub2.to_multiset() =~= sub.to_multiset());
    }
}

/// Choose a pivot strategy here.
/// We default to using the last element as pivots.
fn choose_pivot_index(len: usize) -> (r: usize)
    requires
        len >= 1,
    ensures
        r == len - 1,
{
    len - 1
}

/// Moves every element of the window that compares at most the pivot to
/// the pivot's left and the rest to its right; the pivot ends at the
/// returned index.
fn partition<T: PartialOrd + Copy>(v: &mut Vec<T>, lo: usize, hi: usize) -> (p: usize)
    requires
        cmp_usable::<T>(),
        lo < hi <= old(v)@.len(),
    ensures
        lo <= p < hi,
        final(v)@.len() == old(v)@.len(),
        forall|k: int| 0 <= k < old(v)@.len() && !(lo <= k < hi) ==> final(v)@[k] == old(v)@[k],
        final(v)@.subrange(lo as int, hi as int).to_multiset() == old(v)@.subrange(
            lo as int,
            hi as int,
        ).to_multiset(),
        forall|k: int| lo <= k < p ==> le_spec(#[trigger] final(v)@[k], final(v)@[p as int]),
        forall|k: int| p < k < hi ==> !le_spec(#[trigger] final(v)@[k], final(v)@[p as int]),
{
    let len = hi - lo;
    let pivot_index = lo + choose_pivot_index(len);
    swap(v, pivot_index, hi - 1);
    proof {
        assert(v@ =~= old(v)@);
    }
    let mut i: usize = lo;
    let mut j: usize = lo;
    while j < hi - 1
        invariant
            cmp_usable::<T>(),
            lo <= i <= j <= hi - 1,
            lo < hi <= v@.len(),
            v@.len() == old(v)@.len(),
            forall|k: int| 0 <= k < v@.len() && !(lo <= k < hi) ==> v@[k] == old(v)@[k],
            v@.subrange(lo as int, hi as int).to_multiset() == old(v)@.subrange(
                lo as int,
                hi as int,
            ).to_multiset(),
            forall|k: int| lo <= k < i ==> le_spec(#[trigger] v@[k], v@[hi - 1]),
            forall|k: int| i <= k < j ==> !le_spec(#[trigger] v@[k], v@[hi - 1]),
        decreases hi - 1 - j,
    {
        let cond = v[j] <= v[hi - 1];
        if cond {
            let ghost before = v@;
            swap(v, i, j);
            proof {
                lemma_swap_subrange_multiset(before, lo as int, hi as int, i as int, j as int);
                assert(v@[hi - 1] == before[hi - 1]);
                assert forall|k: int| lo <= k < i + 1 implies le_spec(
                    #[trigger] v@[k],
                    v@[hi - 1],
                ) by {
                    if k == i as int {
                        assert(v@[k] == before[j as int]);
                    } else {
                        assert(v@[k] == before[k]);
                    }
                }
                assert forall|k: int| i + 1 <= k < j + 1 implies !le_spec(
                    #[trigger] v@[k],
                    v@[hi - 1],
                ) by {
                    if k == j as int {
                        assert(v@[k] == before[i as int]);
                        if i < j {
                            assert(!le_spec(before[i as int], before[hi - 1]));
                        } else {
                            assert(v@[k] == before[j as int]);
                        }
                    } else {
                        assert(v@[k] == before[k]);
                    }
                }
            }
            i = i + 1;
        }
        j = j + 1;
    }
    let ghost before = v@;
    swap(v, i, hi - 1);
    proof {
        lemma_swap_subrange_multiset(before, lo as int, hi as int, i as int, hi as int - 1);
        assert(v@[i as int] == before[hi - 1]);
        assert forall|k: int| lo <= k < i implies le_spec(#[trigger] v@[k], v@[i as int]) by {
            assert(v@[k] == before[k]);
        }
        assert forall|k: int| i < k < hi implies !le_spec(#[trigger] v@[k], v@[i as int]) by {
            if k == hi - 1 {
                assert(v@[k] == before[i as int]);
                assert((i as int) < hi - 1);
                assert(!le_spec(before[i as int], before[hi - 1]));
            } else {
                assert(v@[k] == before[k]);
            }
        }
    }
    i
}

fn sort_range<T: PartialOrd + Copy>(v: &mut Vec<T>, lo: usize, hi: usize)
    requires
        cmp_usable::<T>(),
        lo <= hi <= old(v)@.len(),
    ensures
        final(v)@.len() == old(v)@.len(),
        forall|k: int| 0 <= k < old(v)@.len() && !(lo <= k < hi) ==> final(v)@[k] == old(v)@[k],
        final(v)@.subrange(lo as int, hi as int).to_multiset() == old(v)@.subrange(
            lo as int,
            hi as int,
        ).to_multiset(),
        sorted_between(final(v)@, lo as int, hi as int),
    decreases hi - lo,
{
    broadcast use group_to_multiset_ensures;

    if hi - lo < 2 {
        return ;
    }
    let ghost v0 = v@;
    let p = partition(v, lo, hi);
    let ghost v1 = v@;
    let ghost pivot = v1[p as int];
    sort_range(v, lo, p);
    let ghost v2 = v@;
    sort_range(v, p + 1, hi);
    proof {
        let vf = v@;
        assert(vf[p as int] == pivot);
        // the left half still compares at most the pivot
        assert forall|k: int| lo <= k < p implies le_spec(#[trigger] vf[k], pivot) by {
            assert(vf[k] == v2[k]);
            let subl2 = v2.subrange(lo as int, p as int);
            assert(subl2[k - lo] == v2[k]);
            assert(subl2.contains(v2[k]));
            assert(subl2.to_multiset().count(v2[k]) > 0);
            let subl1 = v1.subrange(lo as int, p as int);
            assert(subl1.to_multiset().count(v2[k]) > 0);
            assert(subl1.contains(v2[k]));
            let ri = choose|ri: int| 0 <= ri < subl1.len() && subl1[ri] == v2[k];
            assert(v1[lo + ri] == v2[k]);
            assert(le_spec(v1[lo + ri], pivot));
        }
        // the right half compares at least the pivot
        assert forall|k: int| p < k < hi implies le_spec(pivot, #[trigger] vf[k]) by {
            let subr_f = vf.subrange(p as int + 1, hi as int);
            assert(subr_f[k - p - 1] == vf[k]);
            assert(subr_f.contains(vf[k]));
            assert(subr_f.to_multiset().count(vf[k]) > 0);
            let subr2 = v2.subrange(p as int + 1, hi as int);
            assert(subr2.to_multiset().count(vf[k]) > 0);
            assert(subr2.contains(vf[k]));
            let ri = choose|ri: int| 0 <= ri < subr2.len() && subr2[ri] == vf[k];
            assert(v2[p + 1 + ri] == vf[k]);
            assert(v2[p + 1 + ri] == v1[p + 1 + ri]);
            assert(!le_spec(v1[p + 1 + ri], pivot));
            assert(le_spec(pivot, v1[p + 1 + ri]));
        }
        assert(sorted_between(vf, lo as int, hi as int)) by {
            assert forall|i: int, j: int| lo <= i < j < hi implies le_spec(
                #[trigger] vf[i],
                #[trigger] vf[j],
            ) by {
                if j < p {
                    assert(vf[i] == v2[i] && vf[j] == v2[j]);
                    assert(sorted_between(v2, lo as int, p as int));
                } else if j == p {
                    assert(le_spec(vf[i], pivot));
                } else if i == p {
                    assert(le_spec(pivot, vf[j]));
                } else if i < p {
                    assert(le_spec(vf[i], pivot));
                    assert(le_spec(pivot, vf[j]));
                } else {
                    assert(sorted_between(vf, p as int + 1, hi as int));
                }
            }
        }
        // the window keeps its contents
        assert(vf.subrange(lo as int, hi as int) =~= vf.subrange(lo as int, p as int) + seq![
            vf[p as int],
        ] + vf.subrange(p as int + 1, hi as int));
        assert(v1.subrange(lo as int, hi as int) =~= v1.subrange(lo as int, p as int) + seq![
            v1[p as int],
        ] + v1.subrange(p as int + 1, hi as int));
        assert(vf.subrange(lo as int, p as int) =~= v2.subrange(lo as int, p as int));
        assert(v2.subrange(p as int + 1, hi as int) =~= v1.subrange(p as int + 1, hi as int));
        lemma_multiset_commutative(
            vf.subrange(lo as int, p as int) + seq![vf[p as int]],
            vf.subrange(p as int + 1, hi as int),
        );
        lemma_multiset_commutative(vf.subrange(lo as int, p as int), seq![vf[p as int]]);
        lemma_multiset_commutative(
            v1.subrange(lo as int, p as int) + seq![v1[p as int]],
            v1.subrange(p as int + 1, hi as int),
        );
        lemma_multiset_commutative(v1.subrange(lo as int, p as int), seq![v1[p as int]]);
        assert(vf.subrange(lo as int, hi as int).to_multiset() =~= v1.subrange(
            lo as int,
            hi as int,
        ).to_multiset());
    }
}

/// Sorts the vector in place in ascending order; the contents are kept
/// as a multiset.
pub fn sort<T: PartialOrd + Copy>(arr: &mut Vec<T>)
    requires
        cmp_usable::<T>(),
    ensures
        final(arr)@.len() == old(arr)@.len(),
        final(arr)@.to_multiset() == old(arr)@.to_multiset(),
        sorted_between(final(arr)@, 0, final(arr)@.len() as int),
{
    let len = arr.len();
    if len < 2 {
        return ;
    }
    sort_range(arr, 0, len);
    proof {
        assert(arr@.subrange(0, len as int) =~= arr@);
        assert(old(arr)@.subrange(0, len as int) =~= old(arr)@);
    }
}

} // verus!
