//! The counting side of moving a slider: which end of its path it is at
//! after a number of slides, and how many ticks it passes.
use vstd::prelude::*;

verus! {

/// The index of the path point where a slider is after `slides` slides: the
/// last point after an odd number of them, the first after an even number.
pub open spec fn end_point_index(slides: int, point_count: int) -> int {
    if slides % 2 != 0 {
        point_count - 1
    } else {
        0
    }
}

/// The index of the path point where a slider of `point_count` points is
/// after `slides` slides.
pub fn slide_end_index(slides: usize, point_count: usize) -> (r: usize)
    requires
        point_count > 0,
    ensures
        r == end_point_index(slides as int, point_count as int),
        r < point_count,
{
    if slides % 2 != 0 {
        point_count - 1
    } else {
        0
    }
}

/// How many of the path indices `from..to` are tick indices.
pub open spec fn ticks_between(ticks: Seq<usize>, from: int, to: int) -> int
    decreases to - from,
{
    if to <= from {
        0
    } else {
        ticks_between(ticks, from, to - 1) + if ticks.contains((to - 1) as usize) {
            1int
        } else {
            0
        }
    }
}

/// How many of the path indices `from..to` are tick indices: one tick check
/// is made for each of them as the slider moves from `from` to `to`.
pub fn ticks_passed(ticks: &Vec<usize>, from: usize, to: usize) -> (r: usize)
    ensures
        r == ticks_between(ticks@, from as int, to as int),
        r <= if from < to {
            to - from
        } else {
            0
        },
{
    let mut count: usize = 0;
    let mut i = from;
    while i < to
        invariant
            from <= i <= to || (to < from && i == from),
            count == ticks_between(ticks@, from as int, i as int),
            count <= i - from,
        decreases to - i,
    {
        let mut found = false;
        let mut k: usize = 0;
        while k < ticks.len()
            invariant
                k <= ticks@.len(),
                found == exists|j: int| 0 <= j < k && ticks@[j] == i,
            decreases ticks@.len() - k,
        {
            if ticks[k] == i {
                found = true;
            }
            k = k + 1;
        }
        assert(found == ticks@.contains(i));
        if found {
            count = count + 1;
        }
        i = i + 1;
    }
    count
}

/// After a number of slides and one more, a slider is at the other end of
/// its path.
pub proof fn law_slides_alternate(slides: int, point_count: int)
    requires
        slides >= 0,
        point_count > 1,
    ensures
        end_point_index(slides, point_count) != end_point_index(slides + 1, point_count),
{
}

/// The indices are in strictly increasing order.
pub open spec fn strictly_increasing(idx: Seq<usize>) -> bool {
    forall|a: int, b: int| 0 <= a < b < idx.len() ==> #[trigger] idx[a] < #[trigger] idx[b]
}

/// The items of `s` whose index is not among `idx`, in order.
pub open spec fn keep_indices<T>(s: Seq<T>, idx: Seq<usize>) -> Seq<T>
    decreases s.len(),
{
    if s.len() == 0 {
        s
    } else {
        let r = keep_indices(s.drop_last(), idx);
        if idx.contains((s.len() - 1) as usize) {
            r
        } else {
            r.push(s.last())
        }
    }
}

/// Over a stretch `t..m` that holds none of the indices, every item is kept.
proof fn lemma_keep_gap<T>(s: Seq<T>, idx: Seq<usize>, t: int, m: int)
    requires
        0 <= t <= m <= s.len(),
        forall|j: int| t <= j < m ==> !#[trigger] idx.contains(j as usize),
    ensures
        keep_indices(s.take(m), idx) == keep_indices(s.take(t), idx) + s.subrange(t, m),
    decreases m - t,
{
    if m > t {
        lemma_keep_gap(s, idx, t, m - 1);
        assert(s.take(m).drop_last() =~= s.take(m - 1));
        assert(!idx.contains((m - 1) as usize));
        assert(keep_indices(s.take(t), idx) + s.subrange(t, m) =~= (keep_indices(s.take(t), idx)
            + s.subrange(t, m - 1)).push(s[m - 1]));
    } else {
        assert(s.subrange(t, m) =~= Seq::<T>::empty());
        assert(keep_indices(s.take(t), idx) + s.subrange(t, m) =~= keep_indices(s.take(t), idx));
    }
}

/// Removes the items at the given indices, which are in increasing order,
/// each one at its index less the number already removed before it.
pub fn remove_indices<T>(v: &mut Vec<T>, idx: &Vec<usize>)
    requires
        strictly_increasing(idx@),
        forall|k: int| 0 <= k < idx@.len() ==> #[trigger] idx@[k] < old(v)@.len(),
    ensures
        final(v)@ == keep_indices(old(v)@, idx@),
{
    let ghost orig = v@;
    let n0 = v.len();
    let mut k: usize = 0;
    let mut t: usize = 0;
    assert(orig.take(0) =~= Seq::<T>::empty());
    assert(v@ =~= keep_indices(orig.take(0), idx@) + orig.skip(0));
    while k < idx.len()
        invariant
            orig == old(v)@,
            orig.len() == n0,
            strictly_increasing(idx@),
            forall|j: int| 0 <= j < idx@.len() ==> #[trigger] idx@[j] < orig.len(),
            k <= idx@.len(),
            t <= orig.len(),
            k == 0 ==> t == 0,
            k > 0 ==> t == idx@[k - 1] + 1,
            keep_indices(orig.take(t as int), idx@).len() == t - k,
            v@ == keep_indices(orig.take(t as int), idx@) + orig.skip(t as int),
        decreases idx@.len() - k,
    {
        let i = idx[k];
        proof {
            if k > 0 {
                assert(idx@[k - 1] < idx@[k as int]);
            }
            assert forall|j: int| t <= j < i implies !#[trigger] idx@.contains(j as usize) by {
                if idx@.contains(j as usize) {
                    let a = choose|a: int| 0 <= a < idx@.len() && idx@[a] == j as usize;
                    if a < k {
                        if a < k - 1 {
                            assert(idx@[a] < idx@[k - 1]);
                        }
                    } else if a > k {
                        assert(idx@[k as int] < idx@[a]);
                    }
                }
            }
            lemma_keep_gap(orig, idx@, t as int, i as int);
            assert(orig.take(i + 1).drop_last() =~= orig.take(i as int));
            assert(idx@.contains(i));
            let kept = keep_indices(orig.take(t as int), idx@);
            assert((kept + orig.skip(t as int)).remove(i - k) =~= kept + orig.subrange(
                t as int,
                i as int,
            ) + orig.skip(i + 1));
        }
        v.remove(i - k);
        k = k + 1;
        t = i + 1;
    }
    proof {
        assert forall|j: int| t <= j < orig.len() implies !#[trigger] idx@.contains(j as usize) by {
            if idx@.contains(j as usize) {
                let a = choose|a: int| 0 <= a < idx@.len() && idx@[a] == j as usize;
                assert(k == idx@.len());
                if a < k - 1 {
                    assert(idx@[a] < idx@[k - 1]);
                }
                assert(idx@[a] <= idx@[k - 1]);
            }
        }
        lemma_keep_gap(orig, idx@, t as int, orig.len() as int);
        assert(orig.take(orig.len() as int) =~= orig);
        assert(keep_indices(orig.take(t as int), idx@) + orig.skip(t as int) =~= keep_indices(
            orig.take(t as int),
            idx@,
        ) + orig.subrange(t as int, orig.len() as int));
    }
}

/// A slider starts at the first point of its path and is at its last
/// point after one slide, then goes back and forth.
pub proof fn law_slide_ends(slides: int, point_count: int)
    requires
        slides >= 0,
        point_count > 0,
    ensures
        end_point_index(0, point_count) == 0,
        end_point_index(1, point_count) == point_count - 1,
        end_point_index(slides + 2, point_count) == end_point_index(slides, point_count),
{
}

/// The ticks passed over a stretch of the path are those of its two parts
/// together, and one step passes one tick exactly when its index is a
/// tick index.
pub proof fn law_ticks_add_up(ticks: Seq<usize>, from: int, mid: int, to: int)
    requires
        from <= mid <= to,
    ensures
        ticks_between(ticks, from, mid) + ticks_between(ticks, mid, to) == ticks_between(ticks, from, to),
        ticks_between(ticks, mid, mid + 1) == if ticks.contains(mid as usize) {
            1int
        } else {
            0
        },
        0 <= ticks_between(ticks, from, to) <= to - from,
    decreases to - mid,
{
    assert(ticks_between(ticks, mid, mid) == 0);
    if to > mid {
        law_ticks_add_up(ticks, from, mid, to - 1);
    }
    lemma_ticks_bounded(ticks, from, to);
}

proof fn lemma_ticks_bounded(ticks: Seq<usize>, from: int, to: int)
    ensures
        0 <= ticks_between(ticks, from, to) <= if from < to {
            to - from
        } else {
            0
        },
    decreases to - from,
{
    if to > from {
        lemma_ticks_bounded(ticks, from, to - 1);
    }
}

/// Which items are kept depends only on which of their indices are listed.
proof fn lemma_keep_same_listing<T>(s: Seq<T>, a: Seq<usize>, b: Seq<usize>)
    requires
        forall|j: int| 0 <= j < s.len() ==> (#[trigger] a.contains(j as usize) <==> b.contains(
            j as usize,
        )),
    ensures
        keep_indices(s, a) == keep_indices(s, b),
    decreases s.len(),
{
    if s.len() > 0 {
        lemma_keep_same_listing(s.drop_last(), a, b);
        assert(a.contains((s.len() - 1) as usize) <==> b.contains((s.len() - 1) as usize));
    }
}

/// Removing listed indices (of a sequence that a `Vec` can hold), each once
/// and each within the sequence, leaves
/// as many items as were not listed; listing none keeps every item, in
/// order; and every item kept is an item of the sequence at an unlisted
/// index.
pub proof fn law_keep_indices_count<T>(s: Seq<T>, idx: Seq<usize>)
    requires
        s.len() <= usize::MAX,
    ensures
        strictly_increasing(idx) && (forall|k: int| 0 <= k < idx.len() ==> #[trigger] idx[k] < s.len())
            ==> keep_indices(s, idx).len() + idx.len() == s.len(),
        (forall|k: int| 0 <= k < idx.len() ==> #[trigger] idx[k] >= s.len()) ==> keep_indices(s, idx)
            == s,
        forall|i: int|
            0 <= i < keep_indices(s, idx).len() ==> exists|j: int|
                0 <= j < s.len() && !idx.contains(j as usize) && #[trigger] keep_indices(s, idx)[i]
                    == s[j],
    decreases s.len(),
{
    if s.len() == 0 {
        if strictly_increasing(idx) && (forall|k: int| 0 <= k < idx.len() ==> #[trigger] idx[k] < s.len()) {
            if idx.len() > 0 {
                assert(idx[0] < s.len());
            }
        }
    } else {
        let pre = s.drop_last();
        let n = s.len() - 1;
        if strictly_increasing(idx) && (forall|k: int| 0 <= k < idx.len() ==> #[trigger] idx[k] < s.len()) {
            if idx.contains(n as usize) {
                let m = choose|m: int| 0 <= m < idx.len() && idx[m] == n as usize;
                if m < idx.len() - 1 {
                    assert(idx[m] < idx[idx.len() - 1]);
                    assert(idx[idx.len() - 1] < s.len());
                }
                assert(m == idx.len() - 1);
                assert(idx[idx.len() - 1] == n as usize);
                let id2 = idx.drop_last();
                assert forall|a: int, b: int| 0 <= a < b < id2.len() implies #[trigger] id2[a] < #[trigger] id2[b] by {
                    assert(idx[a] < idx[b]);
                }
                assert forall|k: int| 0 <= k < id2.len() implies #[trigger] id2[k] < pre.len() by {
                    assert(idx[k] < idx[idx.len() - 1]);
                }
                assert forall|j: int| 0 <= j < pre.len() implies (#[trigger] idx.contains(j as usize) <==> id2.contains(j as usize)) by {
                    if idx.contains(j as usize) {
                        let q = choose|q: int| 0 <= q < idx.len() && idx[q] == j as usize;
                        assert(q != idx.len() - 1);
                        assert(id2[q] == idx[q]);
                    }
                    if id2.contains(j as usize) {
                        let q = choose|q: int| 0 <= q < id2.len() && id2[q] == j as usize;
                        assert(idx[q] == id2[q]);
                    }
                }
                lemma_keep_same_listing(pre, idx, id2);
                law_keep_indices_count(pre, id2);
            } else {
                assert forall|k: int| 0 <= k < idx.len() implies #[trigger] idx[k] < pre.len() by {
                    assert(idx[k] != n as usize);
                }
                law_keep_indices_count(pre, idx);
            }
        }
        law_keep_indices_count(pre, idx);
        if forall|k: int| 0 <= k < idx.len() ==> #[trigger] idx[k] >= s.len() {
            assert(!idx.contains(n as usize));
            assert(s =~= pre.push(s.last()));
        }
        let r = keep_indices(s, idx);
        let rp = keep_indices(pre, idx);
        assert forall|i: int| 0 <= i < r.len() implies exists|j: int|
            0 <= j < s.len() && !idx.contains(j as usize) && #[trigger] r[i] == s[j] by {
            if i < rp.len() {
                let j = choose|j: int| 0 <= j < pre.len() && !idx.contains(j as usize) && rp[i] == pre[j];
                assert(r[i] == rp[i]);
                assert(s[j] == pre[j]);
            } else {
                assert(r[i] == s[n]);
            }
        }
    }
}

} // verus!
