//! The draw order: instance indices arranged from the farthest depth to the
//! nearest, and the merge sort that computes it.

use crate::depth::{depth_key, key_of};
use crate::words::{grow_words, grown, overwritten, write_words};
use vstd::multiset::Multiset;
use vstd::prelude::*;
use vstd::seq_lib::{lemma_multiset_commutative, to_multiset_build};
use vstd::set_lib::{lemma_int_range, lemma_set_subset_finite, lemma_subset_equality, set_int_range};

verus! {

/// Instance `a` is drawn strictly before instance `b`: it lies deeper, or at
/// the same depth with the smaller index.
pub open spec fn draws_before(depths: Seq<u32>, a: int, b: int) -> bool {
    depth_key(depths[a]) > depth_key(depths[b]) || (depth_key(depths[a]) == depth_key(depths[b])
        && a < b)
}

/// Instance `a` is not drawn after instance `b`: `a` draws before `b`, or
/// they are the same instance.
pub open spec fn not_after(depths: Seq<u32>, a: int, b: int) -> bool {
    draws_before(depths, a, b) || a == b
}

/// Every entry of `run` is an index below `n`.
pub open spec fn indices_below(run: Seq<u32>, n: int) -> bool {
    forall|i: int| 0 <= i < run.len() ==> (#[trigger] run[i]) < n
}

/// No entry of `run` is drawn after a later entry.
pub open spec fn run_ordered(depths: Seq<u32>, run: Seq<u32>) -> bool {
    forall|i: int, j: int|
        0 <= i <= j < run.len() ==> not_after(
            depths,
            #[trigger] run[i] as int,
            #[trigger] run[j] as int,
        )
}

/// No entry of `front` is drawn after an entry of `back`.
pub open spec fn all_not_after(depths: Seq<u32>, front: Seq<u32>, back: Seq<u32>) -> bool {
    forall|p: int, q: int|
        0 <= p < front.len() && 0 <= q < back.len() ==> not_after(
            depths,
            #[trigger] front[p] as int,
            #[trigger] back[q] as int,
        )
}

/// `order` is the draw order of the instances whose depths are `depths`: it
/// holds one index per instance, each below the instance count, and every
/// entry draws strictly before all later ones. Since `draws_before` never
/// holds of an index and itself, no index occurs twice.
pub open spec fn is_draw_order(depths: Seq<u32>, order: Seq<u32>) -> bool {
    &&& order.len() == depths.len()
    &&& indices_below(order, depths.len() as int)
    &&& forall|i: int, j: int|
        0 <= i < j < order.len() ==> draws_before(
            depths,
            #[trigger] order[i] as int,
            #[trigger] order[j] as int,
        )
}

/// The indices `0, 1, .., n - 1` in rising order.
pub open spec fn identity_order(n: nat) -> Seq<u32> {
    Seq::new(n, |i: int| i as u32)
}

/// Decides whether instance `a` is not drawn after instance `b`.
pub fn goes_first(depths: &Vec<u32>, a: u32, b: u32) -> (r: bool)
    requires
        a < depths.len(),
        b < depths.len(),
    ensures
        r == not_after(depths@, a as int, b as int),
{
    let ka: i64 = key_of(depths[a as usize]);
    let kb: i64 = key_of(depths[b as usize]);
    ka > kb || (ka == kb && a <= b)
}

/// Moving the head of `same` to the end of `out` keeps a merge of `same` and
/// `other` going: `out` stays ordered, and none of its entries is drawn after
/// an entry still to be merged.
proof fn lemma_merge_step(depths: Seq<u32>, out: Seq<u32>, same: Seq<u32>, other: Seq<u32>)
    requires
        same.len() > 0,
        run_ordered(depths, out),
        run_ordered(depths, same),
        run_ordered(depths, other),
        all_not_after(depths, out, same),
        all_not_after(depths, out, other),
        other.len() > 0 ==> not_after(depths, same[0] as int, other[0] as int),
    ensures
        run_ordered(depths, out.push(same[0])),
        all_not_after(depths, out.push(same[0]), same.skip(1)),
        all_not_after(depths, out.push(same[0]), other),
{
    let grown = out.push(same[0]);
    assert forall|p: int, q: int| 0 <= p <= q < grown.len() implies not_after(
        depths,
        #[trigger] grown[p] as int,
        #[trigger] grown[q] as int,
    ) by {
        if q < out.len() {
            assert(not_after(depths, out[p] as int, out[q] as int));
        } else if p < out.len() {
            assert(not_after(depths, out[p] as int, same[0] as int));
        }
    }
    let rest = same.skip(1);
    assert forall|p: int, q: int| 0 <= p < grown.len() && 0 <= q < rest.len() implies not_after(
        depths,
        #[trigger] grown[p] as int,
        #[trigger] rest[q] as int,
    ) by {
        if p < out.len() {
            assert(not_after(depths, out[p] as int, same[q + 1] as int));
        } else {
            assert(not_after(depths, same[0] as int, same[q + 1] as int));
        }
    }
    assert forall|p: int, q: int| 0 <= p < grown.len() && 0 <= q < other.len() implies not_after(
        depths,
        #[trigger] grown[p] as int,
        #[trigger] other[q] as int,
    ) by {
        if p < out.len() {
            assert(not_after(depths, out[p] as int, other[q] as int));
        } else {
            assert(not_after(depths, same[0] as int, other[0] as int));
            assert(not_after(depths, other[0] as int, other[q] as int));
        }
    }
}

/// Where `out` holds the first `k` entries of `source` and `others`, `out`
/// with entry `k` appended holds the first `k + 1` entries and `others`.
proof fn lemma_take_entry(out: Seq<u32>, source: Seq<u32>, k: int, others: Multiset<u32>)
    requires
        0 <= k < source.len(),
        out.to_multiset() == source.take(k).to_multiset().add(others),
    ensures
        out.push(source[k]).to_multiset() == source.take(k + 1).to_multiset().add(others),
{
    broadcast use vstd::multiset::group_multiset_axioms;

    assert(source.take(k + 1) =~= source.take(k).push(source[k]));
    to_multiset_build(source.take(k), source[k]);
    to_multiset_build(out, source[k]);
    assert(out.push(source[k]).to_multiset() =~= source.take(k + 1).to_multiset().add(others));
}

/// Merges the ordered runs `a[lo..mid]` and `a[mid..hi]` into `tmp`.
fn merge_runs(a: &Vec<u32>, tmp: &mut Vec<u32>, depths: &Vec<u32>, lo: usize, mid: usize, hi: usize)
    requires
        lo <= mid <= hi <= a.len(),
        indices_below(a@.subrange(lo as int, hi as int), depths.len() as int),
        run_ordered(depths@, a@.subrange(lo as int, mid as int)),
        run_ordered(depths@, a@.subrange(mid as int, hi as int)),
    ensures
        final(tmp)@.len() == hi - lo,
        indices_below(final(tmp)@, depths.len() as int),
        run_ordered(depths@, final(tmp)@),
        final(tmp)@.to_multiset() == a@.subrange(lo as int, hi as int).to_multiset(),
{
    broadcast use vstd::multiset::group_multiset_axioms;

    let ghost left = a@.subrange(lo as int, mid as int);
    let ghost right = a@.subrange(mid as int, hi as int);
    let ghost whole = a@.subrange(lo as int, hi as int);
    tmp.clear();
    let mut i: usize = lo;
    let mut j: usize = mid;
    proof {
        broadcast use vstd::seq_lib::group_to_multiset_ensures;

        assert(left.take(0).to_multiset().len() == 0);
        assert(right.take(0).to_multiset().len() == 0);
        assert(tmp@.to_multiset().len() == 0);
        assert(tmp@.to_multiset() =~= left.take(0).to_multiset().add(right.take(0).to_multiset()));
    }
    while i < mid || j < hi
        invariant
            lo <= i <= mid <= j <= hi <= a.len(),
            left == a@.subrange(lo as int, mid as int),
            right == a@.subrange(mid as int, hi as int),
            whole == a@.subrange(lo as int, hi as int),
            indices_below(whole, depths.len() as int),
            run_ordered(depths@, left),
            run_ordered(depths@, right),
            tmp@.len() == (i - lo) + (j - mid),
            indices_below(tmp@, depths.len() as int),
            run_ordered(depths@, tmp@),
            all_not_after(depths@, tmp@, left.skip(i - lo)),
            all_not_after(depths@, tmp@, right.skip(j - mid)),
            tmp@.to_multiset() == left.take(i - lo).to_multiset().add(
                right.take(j - mid).to_multiset(),
            ),
        decreases (mid - i) + (hi - j),
    {
        let ghost out = tmp@;
        let ghost rest_left = left.skip(i - lo);
        let ghost rest_right = right.skip(j - mid);
        proof {
            assert(run_ordered(depths@, rest_left)) by {
                assert forall|p: int, q: int| 0 <= p <= q < rest_left.len() implies not_after(
                    depths@,
                    #[trigger] rest_left[p] as int,
                    #[trigger] rest_left[q] as int,
                ) by {
                    assert(not_after(depths@, left[p + i - lo] as int, left[q + i - lo] as int));
                }
            }
            assert(run_ordered(depths@, rest_right)) by {
                assert forall|p: int, q: int| 0 <= p <= q < rest_right.len() implies not_after(
                    depths@,
                    #[trigger] rest_right[p] as int,
                    #[trigger] rest_right[q] as int,
                ) by {
                    assert(not_after(
                        depths@,
                        right[p + j - mid] as int,
                        right[q + j - mid] as int,
                    ));
                }
            }
            if i < mid {
                assert(a@[i as int] == whole[i - lo] && a@[i as int] == rest_left[0]);
            }
            if j < hi {
                assert(a@[j as int] == whole[j - lo] && a@[j as int] == rest_right[0]);
            }
        }
        let take_left: bool = if i >= mid {
            false
        } else if j >= hi {
            true
        } else {
            goes_first(depths, a[i], a[j])
        };
        if take_left {
            tmp.push(a[i]);
            proof {
                lemma_merge_step(depths@, out, rest_left, rest_right);
                lemma_take_entry(out, left, i - lo, right.take(j - mid).to_multiset());
                assert(tmp@ =~= out.push(rest_left[0]));
                assert(rest_left.skip(1) =~= left.skip(i + 1 - lo));
            }
            i = i + 1;
        } else {
            tmp.push(a[j]);
            proof {
                lemma_merge_step(depths@, out, rest_right, rest_left);
                assert(out.to_multiset() =~= right.take(j - mid).to_multiset().add(
                    left.take(i - lo).to_multiset(),
                ));
                lemma_take_entry(out, right, j - mid, left.take(i - lo).to_multiset());
                assert(tmp@ =~= out.push(rest_right[0]));
                assert(rest_right.skip(1) =~= right.skip(j + 1 - mid));
                assert(tmp@.to_multiset() =~= left.take(i - lo).to_multiset().add(
                    right.take(j + 1 - mid).to_multiset(),
                ));
            }
            j = j + 1;
        }
    }
    proof {
        assert(left.take(mid - lo) =~= left);
        assert(right.take(hi - mid) =~= right);
        assert(whole =~= left + right);
        lemma_multiset_commutative(left, right);
    }
}

/// Sorts `a[lo..hi]` into draw order by merging, with `tmp` as working space.
fn sort_range(a: &mut Vec<u32>, tmp: &mut Vec<u32>, depths: &Vec<u32>, lo: usize, hi: usize)
    requires
        lo <= hi <= old(a).len(),
        indices_below(old(a)@.subrange(lo as int, hi as int), depths.len() as int),
    ensures
        final(a)@.len() == old(a)@.len(),
        forall|k: int| 0 <= k < lo || hi <= k < old(a)@.len() ==> final(a)@[k] == old(a)@[k],
        indices_below(final(a)@.subrange(lo as int, hi as int), depths.len() as int),
        run_ordered(depths@, final(a)@.subrange(lo as int, hi as int)),
        final(a)@.subrange(lo as int, hi as int).to_multiset() == old(a)@.subrange(
            lo as int,
            hi as int,
        ).to_multiset(),
    decreases hi - lo,
{
    if hi - lo <= 1 {
        return ;
    }
    let mid: usize = lo + (hi - lo) / 2;
    let ghost a0 = a@;
    let ghost whole = a0.subrange(lo as int, hi as int);
    assert(forall|k: int| 0 <= k < mid - lo ==> a0.subrange(lo as int, mid as int)[k] == whole[k]);
    sort_range(a, tmp, depths, lo, mid);
    let ghost a1 = a@;
    assert(a1.subrange(mid as int, hi as int) =~= a0.subrange(mid as int, hi as int));
    assert(forall|k: int|
        0 <= k < hi - mid ==> a0.subrange(mid as int, hi as int)[k] == whole[k + mid - lo]);
    sort_range(a, tmp, depths, mid, hi);
    let ghost a2 = a@;
    assert(a2.subrange(lo as int, mid as int) =~= a1.subrange(lo as int, mid as int));
    proof {
        let l = a2.subrange(lo as int, mid as int);
        let r = a2.subrange(mid as int, hi as int);
        assert(a2.subrange(lo as int, hi as int) =~= l + r);
        assert(a0.subrange(lo as int, hi as int) =~= a0.subrange(lo as int, mid as int)
            + a0.subrange(mid as int, hi as int));
        lemma_multiset_commutative(l, r);
        lemma_multiset_commutative(
            a0.subrange(lo as int, mid as int),
            a0.subrange(mid as int, hi as int),
        );
    }
    merge_runs(a, tmp, depths, lo, mid, hi);
    write_words(a, lo, tmp);
}

/// Writes the draw order of the instances whose depths are `depths` to the
/// front of `order`: the indices from the farthest instance to the nearest,
/// equal depths by rising index. `order` grows where it is too short, and
/// keeps what it held behind the draw order.
pub fn sort_by_depth(order: &mut Vec<u32>, depths: &Vec<u32>)
    requires
        depths.len() <= u32::MAX,
    ensures
        is_draw_order(depths@, final(order)@.take(depths.len() as int)),
        final(order)@ == overwritten(
            grown(old(order)@, depths.len() as nat),
            final(order)@.take(depths.len() as int),
        ),
{
    let n: usize = depths.len();
    grow_words(order, n);
    let ghost base = order@;
    let mut i: usize = 0;
    while i < n
        invariant
            i <= n <= u32::MAX,
            n == depths.len(),
            order@.len() == base.len(),
            n <= base.len(),
            forall|k: int| 0 <= k < i ==> order@[k] == k,
            forall|k: int| i <= k < base.len() ==> order@[k] == base[k],
        decreases n - i,
    {
        order[i] = i as u32;
        i = i + 1;
    }
    let mut tmp: Vec<u32> = Vec::with_capacity(n);
    let ghost start = order@.take(n as int);
    assert(start =~= identity_order(n as nat));
    assert(order@.subrange(0, n as int) =~= start);
    sort_range(order, &mut tmp, depths, 0, n);
    proof {
        let done = order@.take(n as int);
        assert(order@.subrange(0, n as int) =~= done);
        assert(start.no_duplicates());
        start.lemma_multiset_has_no_duplicates();
        done.lemma_multiset_has_no_duplicates_conv();
        assert forall|i: int, j: int| 0 <= i < j < done.len() implies draws_before(
            depths@,
            #[trigger] done[i] as int,
            #[trigger] done[j] as int,
        ) by {
            assert(not_after(depths@, done[i] as int, done[j] as int));
        }
        assert(order@ =~= overwritten(base, done));
    }
}

/// A draw order runs from the farthest instance to the nearest: of two of
/// its slots, the earlier never holds the lesser depth.
pub proof fn lemma_draw_order_descending(depths: Seq<u32>, order: Seq<u32>, i: int, j: int)
    requires
        is_draw_order(depths, order),
        0 <= i <= j < order.len(),
    ensures
        depth_key(depths[order[i] as int]) >= depth_key(depths[order[j] as int]),
{
    if i < j {
        assert(draws_before(depths, order[i] as int, order[j] as int));
    }
}

/// A draw order leaves no instance out: each index below the instance count
/// stands in exactly one slot, the one this lemma returns.
pub proof fn lemma_draw_order_covers(depths: Seq<u32>, order: Seq<u32>, k: int) -> (s: int)
    requires
        is_draw_order(depths, order),
        0 <= k < depths.len(),
    ensures
        0 <= s < order.len(),
        order[s] == k,
        forall|t: int| 0 <= t < order.len() && order[t] == k ==> t == s,
{
    let n = depths.len() as int;
    let slots = order.map_values(|x: u32| x as int);
    assert forall|i: int, j: int|
        0 <= i < slots.len() && 0 <= j < slots.len() && i != j implies slots[i] != slots[j] by {
        if i < j {
            assert(draws_before(depths, order[i] as int, order[j] as int));
        } else {
            assert(draws_before(depths, order[j] as int, order[i] as int));
        }
    }
    slots.unique_seq_to_set();
    lemma_int_range(0, n);
    assert forall|x: int| slots.to_set().contains(x) implies set_int_range(0, n).contains(x) by {
        let i = choose|i: int| 0 <= i < slots.len() && slots[i] == x;
        assert(order[i] < n);
    }
    lemma_set_subset_finite(set_int_range(0, n), slots.to_set());
    lemma_subset_equality(slots.to_set(), set_int_range(0, n));
    assert(set_int_range(0, n).contains(k));
    assert(slots.contains(k));
    let s = choose|s: int| 0 <= s < slots.len() && slots[s] == k;
    assert(order[s] == k);
    assert forall|t: int| 0 <= t < order.len() && order[t] == k implies t == s by {
        if t != s {
            assert(slots[t] == slots[s]);
        }
    }
    s
}

/// Two draw orders of the same depths agree on their first `upto` slots.
proof fn lemma_draw_orders_agree(depths: Seq<u32>, a: Seq<u32>, b: Seq<u32>, upto: int)
    requires
        is_draw_order(depths, a),
        is_draw_order(depths, b),
        0 <= upto <= depths.len(),
    ensures
        forall|k: int| 0 <= k < upto ==> a[k] == b[k],
    decreases upto,
{
    if upto > 0 {
        lemma_draw_orders_agree(depths, a, b, upto - 1);
        let i = upto - 1;
        let x = a[i] as int;
        let y = b[i] as int;
        if x != y {
            let p = lemma_draw_order_covers(depths, b, x);
            let q = lemma_draw_order_covers(depths, a, y);
            if p < i {
                assert(a[p] == b[p]);
                assert(draws_before(depths, a[p] as int, a[i] as int));
            }
            if q < i {
                assert(a[q] == b[q]);
                assert(draws_before(depths, b[q] as int, b[i] as int));
            }
            assert(draws_before(depths, b[i] as int, b[p] as int));
            assert(draws_before(depths, a[i] as int, a[q] as int));
        }
    }
}

/// The depths fix the draw order: there is at most one.
pub proof fn lemma_draw_order_unique(depths: Seq<u32>, a: Seq<u32>, b: Seq<u32>)
    requires
        is_draw_order(depths, a),
        is_draw_order(depths, b),
    ensures
        a == b,
{
    lemma_draw_orders_agree(depths, a, b, depths.len() as int);
    assert(a =~= b);
}

} // verus!
