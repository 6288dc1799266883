//! The sorter's state: the camera transform, the four attribute arrays, the
//! scratch arrays of a sort pass and the four sorted output arrays.
//!
//! Every array holds IEEE 754 single-precision bit patterns, one `u32` per
//! number. A position or a scale takes three words, a rotation or a color
//! four.

use crate::error::SortError;
use crate::words::{resize_words, resized_to, zeros};
use vstd::prelude::*;

verus! {

/// The camera transform and every buffer of the sorter.
pub struct Sorter {
    /// The view-projection transform, row-major.
    pub camera_matrix: [u32; 16],
    /// Three words per instance.
    pub positions: Vec<u32>,
    /// Four words per instance.
    pub rotations: Vec<u32>,
    /// Four words per instance.
    pub colors: Vec<u32>,
    /// Three words per instance.
    pub scales: Vec<u32>,
    /// Scratch of a sort pass: the instance indices in draw order.
    pub indices: Vec<u32>,
    /// Scratch of a sort pass: the depth of each instance.
    pub distances: Vec<u32>,
    /// The positions of the visible instances, in draw order.
    pub sorted_positions: Vec<u32>,
    /// The rotations of the visible instances, in draw order.
    pub sorted_rotations: Vec<u32>,
    /// The colors of the visible instances, in draw order.
    pub sorted_colors: Vec<u32>,
    /// The scales of the visible instances, in draw order.
    pub sorted_scales: Vec<u32>,
}

/// What a `Sorter` holds, as sequences of words.
pub ghost struct SorterView {
    pub camera_matrix: Seq<u32>,
    pub positions: Seq<u32>,
    pub rotations: Seq<u32>,
    pub colors: Seq<u32>,
    pub scales: Seq<u32>,
    pub indices: Seq<u32>,
    pub distances: Seq<u32>,
    pub sorted_positions: Seq<u32>,
    pub sorted_rotations: Seq<u32>,
    pub sorted_colors: Seq<u32>,
    pub sorted_scales: Seq<u32>,
}

impl View for Sorter {
    type V = SorterView;

    open spec fn view(&self) -> SorterView {
        SorterView {
            camera_matrix: self.camera_matrix@,
            positions: self.positions@,
            rotations: self.rotations@,
            colors: self.colors@,
            scales: self.scales@,
            indices: self.indices@,
            distances: self.distances@,
            sorted_positions: self.sorted_positions@,
            sorted_rotations: self.sorted_rotations@,
            sorted_colors: self.sorted_colors@,
            sorted_scales: self.sorted_scales@,
        }
    }
}

/// The number of instances: a third of the number of position words.
pub open spec fn instance_count(v: SorterView) -> nat {
    v.positions.len() / 3
}

/// The state after every buffer was resized for `n` instances.
pub open spec fn resized(v: SorterView, n: nat) -> SorterView {
    SorterView {
        camera_matrix: v.camera_matrix,
        positions: resized_to(v.positions, 3 * n),
        rotations: resized_to(v.rotations, 4 * n),
        colors: resized_to(v.colors, 4 * n),
        scales: resized_to(v.scales, 3 * n),
        indices: resized_to(v.indices, n),
        distances: resized_to(v.distances, n),
        sorted_positions: resized_to(v.sorted_positions, 3 * n),
        sorted_rotations: resized_to(v.sorted_rotations, 4 * n),
        sorted_colors: resized_to(v.sorted_colors, 4 * n),
        sorted_scales: resized_to(v.sorted_scales, 3 * n),
    }
}

/// Resizing twice for the same number of instances is resizing once.
pub proof fn lemma_resize_is_idempotent(v: SorterView, n: nat)
    ensures
        resized(resized(v, n), n) == resized(v, n),
{
    let once = resized(v, n);
    let twice = resized(once, n);
    assert(twice.positions =~= once.positions);
    assert(twice.rotations =~= once.rotations);
    assert(twice.colors =~= once.colors);
    assert(twice.scales =~= once.scales);
    assert(twice.indices =~= once.indices);
    assert(twice.distances =~= once.distances);
    assert(twice.sorted_positions =~= once.sorted_positions);
    assert(twice.sorted_rotations =~= once.sorted_rotations);
    assert(twice.sorted_colors =~= once.sorted_colors);
    assert(twice.sorted_scales =~= once.sorted_scales);
}

impl Sorter {
    /// A sorter without instances, with the zero matrix as its transform.
    pub fn new() -> (state: Sorter)
        ensures
            state@.camera_matrix == zeros(16),
            state@.positions.len() == 0,
            state@.rotations.len() == 0,
            state@.colors.len() == 0,
            state@.scales.len() == 0,
            state@.indices.len() == 0,
            state@.distances.len() == 0,
            state@.sorted_positions.len() == 0,
            state@.sorted_rotations.len() == 0,
            state@.sorted_colors.len() == 0,
            state@.sorted_scales.len() == 0,
    {
        let state = Sorter {
            camera_matrix: [0u32; 16],
            positions: Vec::new(),
            rotations: Vec::new(),
            colors: Vec::new(),
            scales: Vec::new(),
            indices: Vec::new(),
            distances: Vec::new(),
            sorted_positions: Vec::new(),
            sorted_rotations: Vec::new(),
            sorted_colors: Vec::new(),
            sorted_scales: Vec::new(),
        };
        assert(state@.camera_matrix =~= zeros(16));
        state
    }
}

/// Resizes every buffer for `num_points` instances. Words that are kept keep
/// their value, new words are zero.
pub fn resize_buffers(state: &mut Sorter, num_points: u32)
    requires
        4 * num_points <= usize::MAX,
    ensures
        final(state)@ == resized(old(state)@, num_points as nat),
{
    let n: usize = num_points as usize;
    resize_words(&mut state.indices, n);
    resize_words(&mut state.distances, n);
    resize_words(&mut state.positions, n * 3);
    resize_words(&mut state.rotations, n * 4);
    resize_words(&mut state.colors, n * 4);
    resize_words(&mut state.scales, n * 3);
    resize_words(&mut state.sorted_positions, n * 3);
    resize_words(&mut state.sorted_rotations, n * 4);
    resize_words(&mut state.sorted_colors, n * 4);
    resize_words(&mut state.sorted_scales, n * 3);
}

/// The words of an array that may be absent.
pub open spec fn words(buffer: Option<Vec<u32>>) -> Option<Seq<u32>> {
    match buffer {
        Some(v) => Some(v@),
        None => None,
    }
}

/// Whether four attribute arrays can replace those of the sorter: each is
/// present and not empty, positions and scales hold whole triples, rotations
/// and colors whole quadruples, and all four hold the same number of
/// instances.
pub open spec fn buffers_accepted(
    positions: Option<Seq<u32>>,
    rotations: Option<Seq<u32>>,
    colors: Option<Seq<u32>>,
    scales: Option<Seq<u32>>,
) -> bool {
    &&& positions is Some
    &&& rotations is Some
    &&& colors is Some
    &&& scales is Some
    &&& positions->0.len() > 0
    &&& positions->0.len() % 3 == 0
    &&& rotations->0.len() % 4 == 0
    &&& colors->0.len() % 4 == 0
    &&& scales->0.len() % 3 == 0
    &&& rotations->0.len() / 4 == positions->0.len() / 3
    &&& colors->0.len() / 4 == positions->0.len() / 3
    &&& scales->0.len() / 3 == positions->0.len() / 3
}

/// The state after a call of `set_buffers`: the four attribute arrays are
/// replaced where they are accepted, and nothing is changed where they are
/// not.
pub open spec fn after_set_buffers(
    v: SorterView,
    positions: Option<Seq<u32>>,
    rotations: Option<Seq<u32>>,
    colors: Option<Seq<u32>>,
    scales: Option<Seq<u32>>,
) -> SorterView {
    if buffers_accepted(positions, rotations, colors, scales) {
        SorterView {
            positions: positions->0,
            rotations: rotations->0,
            colors: colors->0,
            scales: scales->0,
            ..v
        }
    } else {
        v
    }
}

/// Replaces the four attribute arrays, if `buffers_accepted` holds of them;
/// else fails with `InvalidInput` and changes nothing.
pub fn set_buffers(
    state: &mut Sorter,
    positions: Option<Vec<u32>>,
    rotations: Option<Vec<u32>>,
    colors: Option<Vec<u32>>,
    scales: Option<Vec<u32>>,
) -> (r: Result<(), SortError>)
    ensures
        r == (if buffers_accepted(
            words(positions),
            words(rotations),
            words(colors),
            words(scales),
        ) {
            Ok::<(), SortError>(())
        } else {
            Err::<(), SortError>(SortError::InvalidInput)
        }),
        final(state)@ == after_set_buffers(
            old(state)@,
            words(positions),
            words(rotations),
            words(colors),
            words(scales),
        ),
        r is Err ==> *final(state) == *old(state),
{
    match (positions, rotations, colors, scales) {
        (Some(p), Some(r), Some(c), Some(s)) => {
            let n: usize = p.len() / 3;
            if p.len() == 0 || p.len() % 3 != 0 || r.len() % 4 != 0 || c.len() % 4 != 0 || s.len()
                % 3 != 0 || r.len() / 4 != n || c.len() / 4 != n || s.len() / 3 != n {
                return Err(SortError::InvalidInput);
            }
            state.positions = p;
            state.rotations = r;
            state.colors = c;
            state.scales = s;
            Ok(())
        },
        _ => Err(SortError::InvalidInput),
    }
}

/// The number of instances: a third of the number of position words, the
/// count that a sort pass works on. A count that does not fit 32 bits, which
/// no sort pass accepts, is given modulo 2^32.
pub fn get_num_instances(state: &Sorter) -> (count: u32)
    ensures
        instance_count(state@) <= u32::MAX ==> count == instance_count(state@),
        count == instance_count(state@) % 0x1_0000_0000,
{
    let n: u64 = (state.positions.len() / 3) as u64;
    (n % 0x1_0000_0000u64) as u32
}

/// Lends the positions out for reading and writing in place.
pub fn get_positions(state: &mut Sorter) -> (buffer: &mut [u32])
    ensures
        buffer@ == old(state)@.positions,
        final(state)@ == (SorterView { positions: final(buffer)@, ..old(state)@ }),
{
    state.positions.as_mut_slice()
}

/// Replaces the positions by `buffer`.
pub fn set_positions(state: &mut Sorter, buffer: Vec<u32>)
    ensures
        final(state)@ == (SorterView { positions: buffer@, ..old(state)@ }),
{
    state.positions = buffer;
}

/// Lends the rotations out for reading and writing in place.
pub fn get_rotations(state: &mut Sorter) -> (buffer: &mut [u32])
    ensures
        buffer@ == old(state)@.rotations,
        final(state)@ == (SorterView { rotations: final(buffer)@, ..old(state)@ }),
{
    state.rotations.as_mut_slice()
}

/// Replaces the rotations by `buffer`.
pub fn set_rotations(state: &mut Sorter, buffer: Vec<u32>)
    ensures
        final(state)@ == (SorterView { rotations: buffer@, ..old(state)@ }),
{
    state.rotations = buffer;
}

/// Lends the colors out for reading and writing in place.
pub fn get_colors(state: &mut Sorter) -> (buffer: &mut [u32])
    ensures
        buffer@ == old(state)@.colors,
        final(state)@ == (SorterView { colors: final(buffer)@, ..old(state)@ }),
{
    state.colors.as_mut_slice()
}

/// Replaces the colors by `buffer`.
pub fn set_colors(state: &mut Sorter, buffer: Vec<u32>)
    ensures
        final(state)@ == (SorterView { colors: buffer@, ..old(state)@ }),
{
    state.colors = buffer;
}

/// Lends the scales out for reading and writing in place.
pub fn get_scales(state: &mut Sorter) -> (buffer: &mut [u32])
    ensures
        buffer@ == old(state)@.scales,
        final(state)@ == (SorterView { scales: final(buffer)@, ..old(state)@ }),
{
    state.scales.as_mut_slice()
}

/// Replaces the scales by `buffer`.
pub fn set_scales(state: &mut Sorter, buffer: Vec<u32>)
    ensures
        final(state)@ == (SorterView { scales: buffer@, ..old(state)@ }),
{
    state.scales = buffer;
}

/// The sorted positions, for reading. Only the words of the instances that
/// the last sort pass counted are meaningful.
pub fn get_sorted_positions(state: &Sorter) -> (buffer: &[u32])
    ensures
        buffer@ == state@.sorted_positions,
{
    state.sorted_positions.as_slice()
}

/// The sorted rotations, for reading. Only the words of the instances that
/// the last sort pass counted are meaningful.
pub fn get_sorted_rotations(state: &Sorter) -> (buffer: &[u32])
    ensures
        buffer@ == state@.sorted_rotations,
{
    state.sorted_rotations.as_slice()
}

/// The sorted colors, for reading. Only the words of the instances that
/// the last sort pass counted are meaningful.
pub fn get_sorted_colors(state: &Sorter) -> (buffer: &[u32])
    ensures
        buffer@ == state@.sorted_colors,
{
    state.sorted_colors.as_slice()
}

/// The sorted scales, for reading. Only the words of the instances that
/// the last sort pass counted are meaningful.
pub fn get_sorted_scales(state: &Sorter) -> (buffer: &[u32])
    ensures
        buffer@ == state@.sorted_scales,
{
    state.sorted_scales.as_slice()
}

/// Replaces the camera transform by the sixteen words given in row-major
/// order. Any matrix is taken.
pub fn set_camera_matrix(
    state: &mut Sorter,
    m00: u32,
    m01: u32,
    m02: u32,
    m03: u32,
    m10: u32,
    m11: u32,
    m12: u32,
    m13: u32,
    m20: u32,
    m21: u32,
    m22: u32,
    m23: u32,
    m30: u32,
    m31: u32,
    m32: u32,
    m33: u32,
)
    ensures
        final(state)@ == (SorterView {
            camera_matrix: seq![
                m00, m01, m02, m03, m10, m11, m12, m13, m20, m21, m22, m23, m30, m31, m32, m33,
            ],
            ..old(state)@
        }),
{
    state.camera_matrix = [
        m00,
        m01,
        m02,
        m03,
        m10,
        m11,
        m12,
        m13,
        m20,
        m21,
        m22,
        m23,
        m30,
        m31,
        m32,
        m33,
    ];
    assert(state.camera_matrix@ =~= seq![
        m00, m01, m02, m03, m10, m11, m12, m13, m20, m21, m22, m23, m30, m31, m32, m33,
    ]);
}

} // verus!
