//! The sort pass: from the depth of each instance to the attributes of the
//! visible instances, gathered from the farthest to the nearest.

use crate::depth::{
    depth_is_nan, depth_is_visible, depth_key, is_finite, is_nan, is_visible,
    lemma_key_orders_values, scaled_value,
};
use crate::error::SortError;
use crate::order::{
    draws_before, is_draw_order, lemma_draw_order_covers, lemma_draw_order_descending,
    lemma_draw_order_unique, sort_by_depth,
};
use crate::store::{
    after_set_buffers, buffers_accepted, instance_count, resized, Sorter, SorterView,
};
use crate::words::{
    copy_quad, copy_triple, grow_words, grown, overwritten, quad, triple, write_words,
};
use vstd::prelude::*;
use vstd::seq_lib::seq_to_set_is_finite;

verus! {

/// Whether a sort pass can run: `depths` holds one depth per instance, the
/// instance count fits 32 bits, and rotations, colors and scales hold an entry
/// for every instance.
pub open spec fn pass_accepted(v: SorterView, depths: Seq<u32>) -> bool {
    &&& instance_count(v) <= u32::MAX
    &&& depths.len() == instance_count(v)
    &&& v.rotations.len() >= 4 * instance_count(v)
    &&& v.colors.len() >= 4 * instance_count(v)
    &&& v.scales.len() >= 3 * instance_count(v)
}

/// Whether some depth is a NaN.
pub open spec fn has_nan(depths: Seq<u32>) -> bool {
    exists|i: int| 0 <= i < depths.len() && is_nan(#[trigger] depths[i])
}

/// Whether `i` is the first instance whose depth is a NaN.
pub open spec fn is_first_nan(depths: Seq<u32>, i: int) -> bool {
    &&& 0 <= i < depths.len()
    &&& is_nan(depths[i])
    &&& forall|j: int| 0 <= j < i ==> !is_nan(#[trigger] depths[j])
}

/// Whether `after` is `base` with its first `count` triples written anew:
/// slot `s` holds the triple of instance `order[s]` from `source`, and the
/// words behind the `count` triples are those of `base`.
pub open spec fn triples_written(
    base: Seq<u32>,
    source: Seq<u32>,
    order: Seq<u32>,
    count: int,
    after: Seq<u32>,
) -> bool {
    &&& after.len() == base.len()
    &&& forall|s: int|
        0 <= s < count ==> #[trigger] triple(after, s) == triple(source, order[s] as int)
    &&& forall|k: int| 3 * count <= k < after.len() ==> #[trigger] after[k] == base[k]
}

/// Whether `after` is `base` with its first `count` quadruples written anew;
/// see `triples_written`.
pub open spec fn quads_written(
    base: Seq<u32>,
    source: Seq<u32>,
    order: Seq<u32>,
    count: int,
    after: Seq<u32>,
) -> bool {
    &&& after.len() == base.len()
    &&& forall|s: int| 0 <= s < count ==> #[trigger] quad(after, s) == quad(source, order[s] as int)
    &&& forall|k: int| 4 * count <= k < after.len() ==> #[trigger] after[k] == base[k]
}

/// Whether the first `count` slots of `order`, and no others, hold visible
/// instances.
pub open spec fn visible_prefix(depths: Seq<u32>, order: Seq<u32>, count: int) -> bool {
    &&& 0 <= count <= order.len()
    &&& forall|s: int|
        0 <= s < order.len() ==> (s < count <==> is_visible(depths[#[trigger] order[s] as int]))
}

/// The draw order that a pass left in the scratch array of indices: its
/// first entries, one per depth.
pub open spec fn order_of(after: SorterView, depths: Seq<u32>) -> Seq<u32> {
    after.indices.take(depths.len() as int)
}

/// Whether a successful pass over `depths` leads from `before` to `after` and
/// returns `count`. The camera and the attribute arrays are untouched. An
/// array of scratch or of output that is too short for all instances grows,
/// and what a pass does not write it leaves as it was. The scratch arrays
/// start with the depths and with their draw order. Each output array holds
/// in its first `count` slots the attributes of the visible instances in draw
/// order.
pub open spec fn is_pass_result(
    before: SorterView,
    depths: Seq<u32>,
    after: SorterView,
    count: int,
) -> bool {
    &&& after.camera_matrix == before.camera_matrix
    &&& after.positions == before.positions
    &&& after.rotations == before.rotations
    &&& after.colors == before.colors
    &&& after.scales == before.scales
    &&& after.distances == overwritten(grown(before.distances, depths.len()), depths)
    &&& after.indices == overwritten(grown(before.indices, depths.len()), order_of(after, depths))
    &&& is_draw_order(depths, order_of(after, depths))
    &&& visible_prefix(depths, order_of(after, depths), count)
    &&& triples_written(
        grown(before.sorted_positions, 3 * depths.len()),
        before.positions,
        order_of(after, depths),
        count,
        after.sorted_positions,
    )
    &&& quads_written(
        grown(before.sorted_rotations, 4 * depths.len()),
        before.rotations,
        order_of(after, depths),
        count,
        after.sorted_rotations,
    )
    &&& quads_written(
        grown(before.sorted_colors, 4 * depths.len()),
        before.colors,
        order_of(after, depths),
        count,
        after.sorted_colors,
    )
    &&& triples_written(
        grown(before.sorted_scales, 3 * depths.len()),
        before.scales,
        order_of(after, depths),
        count,
        after.sorted_scales,
    )
}

/// Finds the first depth that is a NaN.
pub fn find_nan(depths: &Vec<u32>) -> (r: Option<usize>)
    ensures
        match r {
            Some(i) => is_first_nan(depths@, i as int),
            None => !has_nan(depths@),
        },
{
    let mut i: usize = 0;
    while i < depths.len()
        invariant
            i <= depths.len(),
            forall|j: int| 0 <= j < i ==> !is_nan(#[trigger] depths@[j]),
        decreases depths.len() - i,
    {
        if depth_is_nan(depths[i]) {
            return Some(i);
        }
        i = i + 1;
    }
    None
}

/// Gathers the attributes of the visible ones of the first `n` instances
/// into the output arrays, in the order of `state.indices`, and returns their
/// number.
fn gather_visible(state: &mut Sorter, n: usize) -> (count: usize)
    requires
        n <= old(state)@.distances.len(),
        n <= old(state)@.indices.len(),
        is_draw_order(old(state)@.distances.take(n as int), old(state)@.indices.take(n as int)),
        old(state)@.positions.len() >= 3 * n,
        old(state)@.rotations.len() >= 4 * n,
        old(state)@.colors.len() >= 4 * n,
        old(state)@.scales.len() >= 3 * n,
        old(state)@.sorted_positions.len() >= 3 * n,
        old(state)@.sorted_rotations.len() >= 4 * n,
        old(state)@.sorted_colors.len() >= 4 * n,
        old(state)@.sorted_scales.len() >= 3 * n,
    ensures
        final(state)@.camera_matrix == old(state)@.camera_matrix,
        final(state)@.positions == old(state)@.positions,
        final(state)@.rotations == old(state)@.rotations,
        final(state)@.colors == old(state)@.colors,
        final(state)@.scales == old(state)@.scales,
        final(state)@.distances == old(state)@.distances,
        final(state)@.indices == old(state)@.indices,
        visible_prefix(
            old(state)@.distances.take(n as int),
            old(state)@.indices.take(n as int),
            count as int,
        ),
        triples_written(
            old(state)@.sorted_positions,
            old(state)@.positions,
            old(state)@.indices.take(n as int),
            count as int,
            final(state)@.sorted_positions,
        ),
        quads_written(
            old(state)@.sorted_rotations,
            old(state)@.rotations,
            old(state)@.indices.take(n as int),
            count as int,
            final(state)@.sorted_rotations,
        ),
        quads_written(
            old(state)@.sorted_colors,
            old(state)@.colors,
            old(state)@.indices.take(n as int),
            count as int,
            final(state)@.sorted_colors,
        ),
        triples_written(
            old(state)@.sorted_scales,
            old(state)@.scales,
            old(state)@.indices.take(n as int),
            count as int,
            final(state)@.sorted_scales,
        ),
{
    let ghost before = state@;
    let ghost depths = state@.distances.take(n as int);
    let ghost order = state@.indices.take(n as int);
    let mut count: usize = 0;
    let mut slot: usize = 0;
    while slot < n
        invariant
            count <= slot <= n,
            n == depths.len(),
            depths == before.distances.take(n as int),
            order == before.indices.take(n as int),
            is_draw_order(depths, order),
            state@.camera_matrix == before.camera_matrix,
            state@.positions == before.positions,
            state@.rotations == before.rotations,
            state@.colors == before.colors,
            state@.scales == before.scales,
            state@.distances == before.distances,
            state@.indices == before.indices,
            n <= before.distances.len(),
            n <= before.indices.len(),
            before.positions.len() >= 3 * n,
            before.rotations.len() >= 4 * n,
            before.colors.len() >= 4 * n,
            before.scales.len() >= 3 * n,
            before.sorted_positions.len() >= 3 * n,
            before.sorted_rotations.len() >= 4 * n,
            before.sorted_colors.len() >= 4 * n,
            before.sorted_scales.len() >= 3 * n,
            forall|s: int|
                0 <= s < slot ==> (s < count <==> is_visible(depths[#[trigger] order[s] as int])),
            triples_written(
                before.sorted_positions,
                before.positions,
                order,
                count as int,
                state@.sorted_positions,
            ),
            quads_written(
                before.sorted_rotations,
                before.rotations,
                order,
                count as int,
                state@.sorted_rotations,
            ),
            quads_written(
                before.sorted_colors,
                before.colors,
                order,
                count as int,
                state@.sorted_colors,
            ),
            triples_written(
                before.sorted_scales,
                before.scales,
                order,
                count as int,
                state@.sorted_scales,
            ),
        decreases n - slot,
    {
        let index: usize = state.indices[slot] as usize;
        assert(index == order[slot as int] && order[slot as int] < n);
        assert(state.distances@[index as int] == depths[index as int]);
        if depth_is_visible(state.distances[index]) {
            proof {
                assert forall|s: int| 0 <= s < slot implies is_visible(
                    depths[#[trigger] order[s] as int],
                ) by {
                    lemma_draw_order_descending(depths, order, s, slot as int);
                }
                if count < slot {
                    assert(is_visible(depths[order[count as int] as int]));
                }
            }
            let ghost held = state@;
            copy_triple(&mut state.sorted_positions, count, &state.positions, index);
            copy_quad(&mut state.sorted_rotations, count, &state.rotations, index);
            copy_quad(&mut state.sorted_colors, count, &state.colors, index);
            copy_triple(&mut state.sorted_scales, count, &state.scales, index);
            proof {
                assert forall|s: int| 0 <= s < count implies #[trigger] triple(
                    state@.sorted_positions,
                    s,
                ) == triple(before.positions, order[s] as int) by {
                    assert(triple(state@.sorted_positions, s) =~= triple(held.sorted_positions, s));
                }
                assert forall|s: int| 0 <= s < count implies #[trigger] triple(
                    state@.sorted_scales,
                    s,
                ) == triple(before.scales, order[s] as int) by {
                    assert(triple(state@.sorted_scales, s) =~= triple(held.sorted_scales, s));
                }
                assert forall|s: int| 0 <= s < count implies #[trigger] quad(
                    state@.sorted_rotations,
                    s,
                ) == quad(before.rotations, order[s] as int) by {
                    assert(quad(state@.sorted_rotations, s) =~= quad(held.sorted_rotations, s));
                }
                assert forall|s: int| 0 <= s < count implies #[trigger] quad(
                    state@.sorted_colors,
                    s,
                ) == quad(before.colors, order[s] as int) by {
                    assert(quad(state@.sorted_colors, s) =~= quad(held.sorted_colors, s));
                }
            }
            count = count + 1;
        }
        slot = slot + 1;
    }
    count
}

/// Runs one sort pass. `depths` holds the depth of each instance under the
/// camera transform, as the caller projected it, one bit pattern per
/// instance.
///
/// The pass is refused with `InvalidInput` unless `pass_accepted` holds, and
/// with `NonFiniteDepth` where a depth is a NaN; a refused pass changes
/// nothing. Otherwise the output arrays receive the attributes of the
/// instances with a depth above zero, from the farthest to the nearest, and
/// their number is returned; see `is_pass_result`.
pub fn perform_sort(state: &mut Sorter, depths: &Vec<u32>) -> (r: Result<u32, SortError>)
    ensures
        match r {
            Ok(count) => {
                &&& pass_accepted(old(state)@, depths@)
                &&& !has_nan(depths@)
                &&& is_pass_result(old(state)@, depths@, final(state)@, count as int)
            },
            Err(SortError::InvalidInput) => {
                &&& !pass_accepted(old(state)@, depths@)
                &&& *final(state) == *old(state)
            },
            Err(SortError::NonFiniteDepth { index, x, y, z }) => {
                &&& pass_accepted(old(state)@, depths@)
                &&& is_first_nan(depths@, index as int)
                &&& x == old(state)@.positions[3 * index]
                &&& y == old(state)@.positions[3 * index + 1]
                &&& z == old(state)@.positions[3 * index + 2]
                &&& *final(state) == *old(state)
            },
        },
{
    let n: usize = state.positions.len() / 3;
    if n as u64 > 0xffff_ffffu64 || depths.len() != n || state.rotations.len() / 4 < n
        || state.colors.len() / 4 < n || state.scales.len() / 3 < n {
        return Err(SortError::InvalidInput);
    }
    match find_nan(depths) {
        Some(i) => {
            return Err(
                SortError::NonFiniteDepth {
                    index: i as u32,
                    x: state.positions[3 * i],
                    y: state.positions[3 * i + 1],
                    z: state.positions[3 * i + 2],
                },
            );
        },
        None => {},
    }
    grow_words(&mut state.distances, n);
    write_words(&mut state.distances, 0, depths);
    sort_by_depth(&mut state.indices, depths);
    grow_words(&mut state.sorted_positions, 3 * n);
    grow_words(&mut state.sorted_rotations, 4 * n);
    grow_words(&mut state.sorted_colors, 4 * n);
    grow_words(&mut state.sorted_scales, 3 * n);
    proof {
        let base = grown(old(state)@.distances, n as nat);
        assert(state@.distances.take(n as int) =~= depths@);
        assert(state@.distances =~= overwritten(base, depths@));
    }
    let count: usize = gather_visible(state, n);
    Ok(count as u32)
}

/// The output of a pass is ordered back to front: of two output slots, the
/// earlier holds an instance that is at least as deep as that of the later,
/// by their keys and, where both depths are finite, by the numbers that they
/// denote.
pub proof fn lemma_output_back_to_front(
    before: SorterView,
    depths: Seq<u32>,
    after: SorterView,
    count: int,
    i: int,
    j: int,
)
    requires
        is_pass_result(before, depths, after, count),
        0 <= i <= j < count,
    ensures
        depth_key(depths[after.indices[i] as int]) >= depth_key(depths[after.indices[j] as int]),
        is_finite(depths[after.indices[i] as int]) && is_finite(depths[after.indices[j] as int])
            ==> scaled_value(depths[after.indices[i] as int]) >= scaled_value(
            depths[after.indices[j] as int],
        ),
{
    let order = order_of(after, depths);
    lemma_draw_order_descending(depths, order, i, j);
    let far = depths[order[i] as int];
    let near = depths[order[j] as int];
    if is_finite(far) && is_finite(near) {
        lemma_key_orders_values(near, far);
    }
}

/// A pass drops the instances that are not visible and no others: every
/// instance `k` has one slot in the draw order, which this lemma returns, and
/// the slot is among the `count` slots of the output exactly when the depth
/// of `k` is above zero. The output never holds more instances than there
/// are.
pub proof fn lemma_retained_iff_visible(
    before: SorterView,
    depths: Seq<u32>,
    after: SorterView,
    count: int,
    k: int,
) -> (slot: int)
    requires
        is_pass_result(before, depths, after, count),
        0 <= k < depths.len(),
    ensures
        0 <= count <= depths.len(),
        0 <= slot < depths.len(),
        after.indices[slot] == k,
        forall|t: int| 0 <= t < depths.len() && after.indices[t] == k ==> t == slot,
        slot < count <==> is_visible(depths[k]),
{
    let order = order_of(after, depths);
    let slot = lemma_draw_order_covers(depths, order, k);
    assert(slot < count <==> is_visible(depths[order[slot] as int]));
    assert forall|t: int| 0 <= t < depths.len() && after.indices[t] == k implies t == slot by {
        assert(order[t] == k);
    }
    slot
}

/// The instances in front of the camera: those with a depth above zero.
pub open spec fn visible_instances(depths: Seq<u32>) -> Set<int> {
    Set::new(|k: int| 0 <= k < depths.len() && is_visible(depths[k]))
}

/// A pass returns the number of instances in front of the camera.
pub proof fn lemma_count_is_number_visible(
    before: SorterView,
    depths: Seq<u32>,
    after: SorterView,
    count: int,
)
    requires
        is_pass_result(before, depths, after, count),
    ensures
        visible_instances(depths).finite(),
        visible_instances(depths).len() == count,
{
    let order = order_of(after, depths);
    let kept = order.subrange(0, count).map_values(|x: u32| x as int);
    assert forall|i: int, j: int|
        0 <= i < kept.len() && 0 <= j < kept.len() && i != j implies kept[i] != kept[j] by {
        if i < j {
            assert(draws_before(depths, order[i] as int, order[j] as int));
        } else {
            assert(draws_before(depths, order[j] as int, order[i] as int));
        }
    }
    kept.unique_seq_to_set();
    seq_to_set_is_finite(kept);
    assert forall|k: int| visible_instances(depths).contains(k) implies kept.to_set().contains(
        k,
    ) by {
        let slot = lemma_retained_iff_visible(before, depths, after, count, k);
        assert(kept[slot] == k);
    }
    assert forall|k: int| kept.to_set().contains(k) implies visible_instances(depths).contains(
        k,
    ) by {
        let slot = choose|slot: int| 0 <= slot < kept.len() && kept[slot] == k;
        assert(order[slot] == k);
        assert(slot < count <==> is_visible(depths[order[slot] as int]));
    }
    assert(kept.to_set() =~= visible_instances(depths));
}

/// Every output slot holds the attributes of one instance, unmixed: the
/// position, rotation, color and scale in slot `s` are those of the instance
/// whose index is `after.indices[s]`, and that instance is visible.
pub proof fn lemma_slot_holds_one_instance(
    before: SorterView,
    depths: Seq<u32>,
    after: SorterView,
    count: int,
    s: int,
)
    requires
        is_pass_result(before, depths, after, count),
        0 <= s < count,
    ensures
        0 <= after.indices[s] < depths.len(),
        is_visible(depths[after.indices[s] as int]),
        triple(after.sorted_positions, s) == triple(before.positions, after.indices[s] as int),
        quad(after.sorted_rotations, s) == quad(before.rotations, after.indices[s] as int),
        quad(after.sorted_colors, s) == quad(before.colors, after.indices[s] as int),
        triple(after.sorted_scales, s) == triple(before.scales, after.indices[s] as int),
{
    let order = order_of(after, depths);
    assert(s < count <==> is_visible(depths[order[s] as int]));
}

/// Two arrays that arise from the same base by writing the same triples are
/// equal.
proof fn lemma_triples_written_unique(
    base: Seq<u32>,
    source: Seq<u32>,
    order: Seq<u32>,
    count: int,
    a: Seq<u32>,
    b: Seq<u32>,
)
    requires
        triples_written(base, source, order, count, a),
        triples_written(base, source, order, count, b),
        0 <= 3 * count <= base.len(),
    ensures
        a == b,
{
    assert forall|k: int| 0 <= k < a.len() implies a[k] == b[k] by {
        if k < 3 * count {
            let s = k / 3;
            assert(triple(a, s) == triple(b, s));
            assert(a[k] == triple(a, s)[k - 3 * s]);
            assert(b[k] == triple(b, s)[k - 3 * s]);
        } else {
            assert(a[k] == base[k]);
            assert(b[k] == base[k]);
        }
    }
    assert(a =~= b);
}

/// Two arrays that arise from the same base by writing the same quadruples
/// are equal.
proof fn lemma_quads_written_unique(
    base: Seq<u32>,
    source: Seq<u32>,
    order: Seq<u32>,
    count: int,
    a: Seq<u32>,
    b: Seq<u32>,
)
    requires
        quads_written(base, source, order, count, a),
        quads_written(base, source, order, count, b),
        0 <= 4 * count <= base.len(),
    ensures
        a == b,
{
    assert forall|k: int| 0 <= k < a.len() implies a[k] == b[k] by {
        if k < 4 * count {
            let s = k / 4;
            assert(quad(a, s) == quad(b, s));
            assert(a[k] == quad(a, s)[k - 4 * s]);
            assert(b[k] == quad(b, s)[k - 4 * s]);
        } else {
            assert(a[k] == base[k]);
            assert(b[k] == base[k]);
        }
    }
    assert(a =~= b);
}

/// A pass is a function of the state and the depths: two results of a pass
/// from the same state over the same depths are the same state and the same
/// count.
pub proof fn lemma_pass_result_unique(
    before: SorterView,
    depths: Seq<u32>,
    a: SorterView,
    count_a: int,
    b: SorterView,
    count_b: int,
)
    requires
        is_pass_result(before, depths, a, count_a),
        is_pass_result(before, depths, b, count_b),
    ensures
        a == b,
        count_a == count_b,
{
    lemma_draw_order_unique(depths, order_of(a, depths), order_of(b, depths));
    let order = order_of(a, depths);
    if count_a < count_b {
        assert(count_a < count_b <==> is_visible(depths[order[count_a] as int]));
        assert(count_a < count_a <==> is_visible(depths[order[count_a] as int]));
    }
    if count_b < count_a {
        assert(count_b < count_a <==> is_visible(depths[order[count_b] as int]));
        assert(count_b < count_b <==> is_visible(depths[order[count_b] as int]));
    }
    let n = depths.len();
    lemma_triples_written_unique(
        grown(before.sorted_positions, 3 * n),
        before.positions,
        order,
        count_a,
        a.sorted_positions,
        b.sorted_positions,
    );
    lemma_quads_written_unique(
        grown(before.sorted_rotations, 4 * n),
        before.rotations,
        order,
        count_a,
        a.sorted_rotations,
        b.sorted_rotations,
    );
    lemma_quads_written_unique(
        grown(before.sorted_colors, 4 * n),
        before.colors,
        order,
        count_a,
        a.sorted_colors,
        b.sorted_colors,
    );
    lemma_triples_written_unique(
        grown(before.sorted_scales, 3 * n),
        before.scales,
        order,
        count_a,
        a.sorted_scales,
        b.sorted_scales,
    );
}

/// Sorting again changes nothing: a second pass over the same depths, with
/// the attributes untouched in between, leaves the whole state as the first
/// pass left it and returns the same count.
pub proof fn lemma_resort_changes_nothing(
    before: SorterView,
    depths: Seq<u32>,
    once: SorterView,
    count_once: int,
    twice: SorterView,
    count_twice: int,
)
    requires
        is_pass_result(before, depths, once, count_once),
        is_pass_result(once, depths, twice, count_twice),
    ensures
        twice == once,
        count_twice == count_once,
{
    let n = depths.len();
    assert(once.distances =~= overwritten(grown(once.distances, n), depths));
    assert(once.indices =~= overwritten(grown(once.indices, n), order_of(once, depths)));
    assert(is_pass_result(once, depths, once, count_once));
    lemma_pass_result_unique(once, depths, once, count_once, twice, count_twice);
}

/// Resizing for `n` instances, then setting attributes for exactly `n`
/// instances, then sorting fits the buffers: the pass is accepted for any `n`
/// depths, no array has to grow, and the pass returns at most `n`.
pub proof fn lemma_resize_then_set_then_sort(
    start: SorterView,
    n: nat,
    positions: Seq<u32>,
    rotations: Seq<u32>,
    colors: Seq<u32>,
    scales: Seq<u32>,
    depths: Seq<u32>,
    after: SorterView,
    count: int,
)
    requires
        n <= u32::MAX,
        positions.len() == 3 * n,
        rotations.len() == 4 * n,
        colors.len() == 4 * n,
        scales.len() == 3 * n,
        depths.len() == n,
        is_pass_result(
            after_set_buffers(
                resized(start, n),
                Some(positions),
                Some(rotations),
                Some(colors),
                Some(scales),
            ),
            depths,
            after,
            count,
        ),
    ensures
        n > 0 ==> buffers_accepted(Some(positions), Some(rotations), Some(colors), Some(scales)),
        pass_accepted(
            after_set_buffers(
                resized(start, n),
                Some(positions),
                Some(rotations),
                Some(colors),
                Some(scales),
            ),
            depths,
        ),
        0 <= count <= n,
        after.indices.len() == n,
        after.distances.len() == n,
        after.sorted_positions.len() == 3 * n,
        after.sorted_rotations.len() == 4 * n,
        after.sorted_colors.len() == 4 * n,
        after.sorted_scales.len() == 3 * n,
{
}

} // verus!
