use gaussian_splatting_sorter::pass::find_nan;
use gaussian_splatting_sorter::{
    get_num_instances, get_sorted_colors, get_sorted_positions, get_sorted_rotations,
    get_sorted_scales, perform_sort, resize_buffers, set_buffers, set_camera_matrix, SortError,
    Sorter,
};

const IDENTITY: [f32; 16] = [
    1.0, 0.0, 0.0, 0.0, 0.0, 1.0, 0.0, 0.0, 0.0, 0.0, 1.0, 0.0, 0.0, 0.0, 0.0, 1.0,
];

fn to_bits(values: &[f32]) -> Vec<u32> {
    values.iter().map(|v| v.to_bits()).collect()
}

fn to_floats(words: &[u32]) -> Vec<f32> {
    words.iter().map(|w| f32::from_bits(*w)).collect()
}

fn load_camera(state: &mut Sorter, m: &[f32; 16]) {
    let w: Vec<u32> = to_bits(m);
    set_camera_matrix(
        state, w[0], w[1], w[2], w[3], w[4], w[5], w[6], w[7], w[8], w[9], w[10], w[11], w[12],
        w[13], w[14], w[15],
    );
}

fn project_depth(m: &[u32; 16], x: f32, y: f32, z: f32) -> f32 {
    let v: Vec<f32> = to_floats(m);
    let row_z = x * v[8] + y * v[9] + z * v[10] + v[11];
    let row_w = x * v[12] + y * v[13] + z * v[14] + v[15];
    row_z / row_w
}

fn depths_of(state: &Sorter) -> Vec<u32> {
    let p = to_floats(&state.positions);
    let mut depths = Vec::new();
    for i in 0..p.len() / 3 {
        let d = project_depth(&state.camera_matrix, p[3 * i], p[3 * i + 1], p[3 * i + 2]);
        depths.push(d.to_bits());
    }
    depths
}

/// Instance `i` gets rotation `(i, i, i, i + 0.5)`, color `(10 i, ..)` and
/// scale `(100 i, ..)`, so that every attribute tells its instance.
fn load_instances(state: &mut Sorter, positions: &[f32]) {
    let n = positions.len() / 3;
    let mut rotations = Vec::new();
    let mut colors = Vec::new();
    let mut scales = Vec::new();
    for i in 0..n {
        let f = i as f32;
        rotations.extend_from_slice(&[f, f, f, f + 0.5]);
        colors.extend_from_slice(&[10.0 * f, 10.0 * f + 1.0, 10.0 * f + 2.0, 10.0 * f + 3.0]);
        scales.extend_from_slice(&[100.0 * f, 100.0 * f + 1.0, 100.0 * f + 2.0]);
    }
    let r = set_buffers(
        state,
        Some(to_bits(positions)),
        Some(to_bits(&rotations)),
        Some(to_bits(&colors)),
        Some(to_bits(&scales)),
    );
    assert_eq!(r, Ok(()));
}

fn check_slot(state: &Sorter, slot: usize, instance: usize) {
    let f = instance as f32;
    let p = to_floats(&state.positions);
    assert_eq!(
        to_floats(&get_sorted_positions(state)[3 * slot..3 * slot + 3]),
        p[3 * instance..3 * instance + 3].to_vec()
    );
    assert_eq!(
        to_floats(&get_sorted_rotations(state)[4 * slot..4 * slot + 4]),
        vec![f, f, f, f + 0.5]
    );
    assert_eq!(
        to_floats(&get_sorted_colors(state)[4 * slot..4 * slot + 4]),
        vec![10.0 * f, 10.0 * f + 1.0, 10.0 * f + 2.0, 10.0 * f + 3.0]
    );
    assert_eq!(
        to_floats(&get_sorted_scales(state)[3 * slot..3 * slot + 3]),
        vec![100.0 * f, 100.0 * f + 1.0, 100.0 * f + 2.0]
    );
}

#[test]
fn three_instances_come_out_farthest_first() {
    let mut state = Sorter::new();
    load_camera(&mut state, &IDENTITY);
    load_instances(&mut state, &[0.0, 0.0, 1.0, 0.0, 0.0, 5.0, 0.0, 0.0, 3.0]);
    let depths = depths_of(&state);
    assert_eq!(to_floats(&depths), vec![1.0, 5.0, 3.0]);
    assert_eq!(perform_sort(&mut state, &depths), Ok(3));
    assert_eq!(state.indices, vec![1, 2, 0]);
    assert_eq!(state.distances, depths);
    assert_eq!(
        to_floats(get_sorted_positions(&state)),
        vec![0.0, 0.0, 5.0, 0.0, 0.0, 3.0, 0.0, 0.0, 1.0]
    );
    check_slot(&state, 0, 1);
    check_slot(&state, 1, 2);
    check_slot(&state, 2, 0);
}

#[test]
fn instance_behind_the_camera_is_dropped() {
    let mut state = Sorter::new();
    load_camera(&mut state, &IDENTITY);
    load_instances(&mut state, &[0.0, 0.0, 1.0, 0.0, 0.0, 5.0, 0.0, 0.0, -2.0]);
    let depths = depths_of(&state);
    assert_eq!(perform_sort(&mut state, &depths), Ok(2));
    assert_eq!(state.indices, vec![1, 0, 2]);
    assert_eq!(
        to_floats(&get_sorted_positions(&state)[..6]),
        vec![0.0, 0.0, 5.0, 0.0, 0.0, 1.0]
    );
    check_slot(&state, 0, 1);
    check_slot(&state, 1, 0);
    // The third slot was never written: it holds the zeros it grew with.
    assert_eq!(get_sorted_positions(&state)[6..].to_vec(), vec![0, 0, 0]);
    assert_eq!(get_sorted_rotations(&state)[8..].to_vec(), vec![0, 0, 0, 0]);
}

#[test]
fn dropped_middle_instance_leaves_no_gap() {
    let mut state = Sorter::new();
    load_camera(&mut state, &IDENTITY);
    load_instances(&mut state, &[0.0, 0.0, 1.0, 0.0, 0.0, -2.0, 0.0, 0.0, 3.0]);
    let depths = depths_of(&state);
    assert_eq!(perform_sort(&mut state, &depths), Ok(2));
    assert_eq!(state.indices, vec![2, 0, 1]);
    check_slot(&state, 0, 2);
    check_slot(&state, 1, 0);
}

#[test]
fn zero_depth_is_dropped() {
    let mut state = Sorter::new();
    load_instances(&mut state, &[0.0; 12]);
    let depths = to_bits(&[0.0, -0.0, f32::MIN_POSITIVE, -f32::MIN_POSITIVE]);
    assert_eq!(perform_sort(&mut state, &depths), Ok(1));
    // Both zeros have the same depth and keep their order.
    assert_eq!(state.indices, vec![2, 0, 1, 3]);
    check_slot(&state, 0, 2);
}

#[test]
fn infinite_depths_are_ordered_like_any_other() {
    let mut state = Sorter::new();
    load_instances(&mut state, &[0.0; 12]);
    let depths = to_bits(&[2.0, f32::NEG_INFINITY, f32::INFINITY, f32::MAX]);
    assert_eq!(perform_sort(&mut state, &depths), Ok(3));
    assert_eq!(state.indices, vec![2, 3, 0, 1]);
    check_slot(&state, 0, 2);
    check_slot(&state, 1, 3);
    check_slot(&state, 2, 0);
}

#[test]
fn equal_depths_keep_rising_index() {
    let mut state = Sorter::new();
    load_instances(&mut state, &[0.0; 18]);
    let depths = to_bits(&[1.0, 2.0, 1.0, 2.0, 1.0, 2.0]);
    assert_eq!(perform_sort(&mut state, &depths), Ok(6));
    assert_eq!(state.indices, vec![1, 3, 5, 0, 2, 4]);
}

#[test]
fn output_depths_never_rise() {
    let mut state = Sorter::new();
    let mut positions = Vec::new();
    let mut seed: u32 = 12345;
    for _ in 0..500 {
        for _ in 0..3 {
            seed = seed.wrapping_mul(1664525).wrapping_add(1013904223);
            positions.push(((seed >> 8) as f32 / 65536.0) - 128.0);
        }
    }
    load_camera(&mut state, &IDENTITY);
    load_instances(&mut state, &positions);
    let depths = depths_of(&state);
    let count = perform_sort(&mut state, &depths).unwrap() as usize;
    let visible = positions.chunks(3).filter(|p| p[2] > 0.0).count();
    assert_eq!(count, visible);
    assert!(count <= 500);
    let out = to_floats(get_sorted_positions(&state));
    for slot in 0..count {
        assert!(out[3 * slot + 2] > 0.0);
        if slot + 1 < count {
            assert!(out[3 * slot + 2] >= out[3 * slot + 5]);
        }
        check_slot(&state, slot, state.indices[slot] as usize);
    }
    for slot in count..500 {
        let d = f32::from_bits(depths[state.indices[slot] as usize]);
        assert!(d <= 0.0);
    }
    let mut seen = state.indices.clone();
    seen.sort();
    assert_eq!(seen, (0..500).collect::<Vec<u32>>());
}

#[test]
fn order_is_that_of_a_stable_descending_sort() {
    let mut state = Sorter::new();
    let mut positions = Vec::new();
    let mut seed: u32 = 99;
    for _ in 0..1000 {
        seed = seed.wrapping_mul(1664525).wrapping_add(1013904223);
        // Few distinct depths, so that there are many ties.
        positions.extend_from_slice(&[0.0, 0.0, ((seed >> 16) % 17) as f32 - 8.0]);
    }
    load_camera(&mut state, &IDENTITY);
    load_instances(&mut state, &positions);
    let depths = depths_of(&state);
    perform_sort(&mut state, &depths).unwrap();
    let floats = to_floats(&depths);
    let mut expected: Vec<u32> = (0..1000).collect();
    expected.sort_by(|a, b| floats[*b as usize].partial_cmp(&floats[*a as usize]).unwrap());
    assert_eq!(state.indices, expected);
}

#[test]
fn sorting_twice_gives_the_same_output() {
    let mut state = Sorter::new();
    load_camera(&mut state, &IDENTITY);
    load_instances(
        &mut state,
        &[0.0, 0.0, 1.0, 0.0, 0.0, 5.0, 0.0, 0.0, -3.0, 1.0, 1.0, 5.0, 2.0, 2.0, 0.5],
    );
    let depths = depths_of(&state);
    let first = perform_sort(&mut state, &depths);
    let positions = get_sorted_positions(&state).to_vec();
    let rotations = get_sorted_rotations(&state).to_vec();
    let colors = get_sorted_colors(&state).to_vec();
    let scales = get_sorted_scales(&state).to_vec();
    let indices = state.indices.clone();
    let second = perform_sort(&mut state, &depths);
    assert_eq!(first, Ok(4));
    assert_eq!(second, first);
    assert_eq!(get_sorted_positions(&state).to_vec(), positions);
    assert_eq!(get_sorted_rotations(&state).to_vec(), rotations);
    assert_eq!(get_sorted_colors(&state).to_vec(), colors);
    assert_eq!(get_sorted_scales(&state).to_vec(), scales);
    assert_eq!(state.indices, indices);
}

#[test]
fn resize_then_set_then_sort_stays_in_bounds() {
    for n in [1u32, 2, 7, 64] {
        let mut state = Sorter::new();
        resize_buffers(&mut state, n);
        let mut positions = Vec::new();
        for i in 0..n {
            positions.extend_from_slice(&[0.0, 0.0, i as f32 - 3.0]);
        }
        load_camera(&mut state, &IDENTITY);
        load_instances(&mut state, &positions);
        assert_eq!(get_num_instances(&state), n);
        let depths = depths_of(&state);
        let count = perform_sort(&mut state, &depths).unwrap();
        assert!(count <= n);
        assert_eq!(count, n.saturating_sub(4));
        assert_eq!(get_sorted_positions(&state).len(), 3 * n as usize);
        assert_eq!(get_sorted_rotations(&state).len(), 4 * n as usize);
        assert_eq!(get_sorted_colors(&state).len(), 4 * n as usize);
        assert_eq!(get_sorted_scales(&state).len(), 3 * n as usize);
    }
}

#[test]
fn sort_of_no_instances_returns_zero() {
    let mut state = Sorter::new();
    resize_buffers(&mut state, 0);
    assert_eq!(perform_sort(&mut state, &Vec::new()), Ok(0));
    assert!(get_sorted_positions(&state).is_empty());
}

#[test]
fn pass_grows_the_output_arrays() {
    let mut state = Sorter::new();
    load_instances(&mut state, &[0.0, 0.0, 2.0, 0.0, 0.0, 4.0]);
    assert!(get_sorted_positions(&state).is_empty());
    let depths = to_bits(&[2.0, 4.0]);
    assert_eq!(perform_sort(&mut state, &depths), Ok(2));
    assert_eq!(get_sorted_positions(&state).len(), 6);
    assert_eq!(get_sorted_rotations(&state).len(), 8);
    assert_eq!(get_sorted_colors(&state).len(), 8);
    assert_eq!(get_sorted_scales(&state).len(), 6);
    assert_eq!(state.indices.len(), 2);
    assert_eq!(state.distances.len(), 2);
}

#[test]
fn pass_never_shrinks_the_output_arrays() {
    let mut state = Sorter::new();
    resize_buffers(&mut state, 5);
    load_instances(&mut state, &[0.0, 0.0, 2.0, 0.0, 0.0, 4.0]);
    let depths = to_bits(&[2.0, 4.0]);
    assert_eq!(perform_sort(&mut state, &depths), Ok(2));
    assert_eq!(get_sorted_positions(&state).len(), 15);
    assert_eq!(get_sorted_rotations(&state).len(), 20);
    assert_eq!(get_sorted_colors(&state).len(), 20);
    assert_eq!(get_sorted_scales(&state).len(), 15);
    assert_eq!(state.indices, vec![1, 0, 0, 0, 0]);
    assert_eq!(state.distances[..2], depths[..]);
    assert_eq!(state.distances[2..], [0, 0, 0]);
}

#[test]
fn scratch_behind_the_instances_is_left_as_it_was() {
    let mut state = Sorter::new();
    load_instances(&mut state, &[0.0, 0.0, 1.0, 0.0, 0.0, 2.0, 0.0, 0.0, 3.0]);
    let three = to_bits(&[1.0, 2.0, 3.0]);
    assert_eq!(perform_sort(&mut state, &three), Ok(3));
    assert_eq!(state.indices, vec![2, 1, 0]);
    state.positions.truncate(3);
    let one = to_bits(&[5.0]);
    assert_eq!(perform_sort(&mut state, &one), Ok(1));
    assert_eq!(state.indices, vec![0, 1, 0]);
    assert_eq!(state.distances, to_bits(&[5.0, 2.0, 3.0]));
    check_slot(&state, 0, 0);
}

#[test]
fn words_behind_the_count_are_left_as_they_were() {
    let mut state = Sorter::new();
    load_instances(&mut state, &[0.0, 0.0, 1.0, 0.0, 0.0, 2.0, 0.0, 0.0, 3.0]);
    assert_eq!(perform_sort(&mut state, &to_bits(&[1.0, 2.0, 3.0])), Ok(3));
    let full = get_sorted_positions(&state).to_vec();
    // Now only instance 0 is visible: slot 0 is rewritten, the rest is stale.
    assert_eq!(perform_sort(&mut state, &to_bits(&[1.0, -2.0, -3.0])), Ok(1));
    let out = get_sorted_positions(&state).to_vec();
    assert_eq!(to_floats(&out[..3]), vec![0.0, 0.0, 1.0]);
    assert_eq!(out[3..], full[3..]);
}

#[test]
fn nan_depth_from_zero_w_is_refused() {
    let mut state = Sorter::new();
    // The last row is zero, so w is zero for every position; with a zero
    // third row too, the depth is 0 / 0.
    let mut m = IDENTITY;
    m[10] = 0.0;
    m[15] = 0.0;
    load_camera(&mut state, &IDENTITY);
    load_instances(&mut state, &[0.0, 0.0, 1.0, 0.0, 0.0, 5.0, 0.0, 0.0, 3.0]);
    let good = depths_of(&state);
    assert_eq!(perform_sort(&mut state, &good), Ok(3));
    let positions = get_sorted_positions(&state).to_vec();
    let rotations = get_sorted_rotations(&state).to_vec();
    let colors = get_sorted_colors(&state).to_vec();
    let scales = get_sorted_scales(&state).to_vec();
    let indices = state.indices.clone();
    let distances = state.distances.clone();

    load_camera(&mut state, &m);
    let bad = depths_of(&state);
    assert!(f32::from_bits(bad[0]).is_nan());
    assert_eq!(
        perform_sort(&mut state, &bad),
        Err(SortError::NonFiniteDepth {
            index: 0,
            x: 0.0f32.to_bits(),
            y: 0.0f32.to_bits(),
            z: 1.0f32.to_bits(),
        })
    );
    assert_eq!(get_sorted_positions(&state).to_vec(), positions);
    assert_eq!(get_sorted_rotations(&state).to_vec(), rotations);
    assert_eq!(get_sorted_colors(&state).to_vec(), colors);
    assert_eq!(get_sorted_scales(&state).to_vec(), scales);
    assert_eq!(state.indices, indices);
    assert_eq!(state.distances, distances);
}

#[test]
fn first_nan_is_the_one_reported() {
    let mut state = Sorter::new();
    load_instances(&mut state, &[1.0, 2.0, 3.0, 4.0, 5.0, 6.0, 7.0, 8.0, 9.0]);
    let depths = vec![1.0f32.to_bits(), 0xffc0_0001, f32::NAN.to_bits()];
    assert_eq!(find_nan(&depths), Some(1));
    assert_eq!(
        perform_sort(&mut state, &depths),
        Err(SortError::NonFiniteDepth {
            index: 1,
            x: 4.0f32.to_bits(),
            y: 5.0f32.to_bits(),
            z: 6.0f32.to_bits(),
        })
    );
    assert_eq!(find_nan(&to_bits(&[1.0, f32::INFINITY, -0.0])), None);
    assert_eq!(find_nan(&Vec::new()), None);
}

#[test]
fn wrong_number_of_depths_is_invalid_input() {
    let mut state = Sorter::new();
    load_instances(&mut state, &[0.0, 0.0, 1.0, 0.0, 0.0, 5.0]);
    assert_eq!(perform_sort(&mut state, &to_bits(&[1.0])), Err(SortError::InvalidInput));
    assert_eq!(
        perform_sort(&mut state, &to_bits(&[1.0, 5.0, 3.0])),
        Err(SortError::InvalidInput)
    );
    // A NaN among depths of the wrong number is not looked at.
    assert_eq!(
        perform_sort(&mut state, &to_bits(&[f32::NAN])),
        Err(SortError::InvalidInput)
    );
    assert!(get_sorted_positions(&state).is_empty());
    assert!(state.indices.is_empty());
}

#[test]
fn short_attribute_array_is_invalid_input() {
    let mut state = Sorter::new();
    load_instances(&mut state, &[0.0, 0.0, 1.0, 0.0, 0.0, 5.0]);
    state.colors.truncate(7);
    let depths = to_bits(&[1.0, 5.0]);
    assert_eq!(perform_sort(&mut state, &depths), Err(SortError::InvalidInput));
    state.colors.push(0);
    assert_eq!(perform_sort(&mut state, &depths), Ok(2));
}

#[test]
fn spare_words_in_attribute_arrays_are_ignored() {
    let mut state = Sorter::new();
    load_instances(&mut state, &[0.0, 0.0, 1.0, 0.0, 0.0, 5.0, 0.0, 0.0, 3.0]);
    // Eight position words count as two instances.
    state.positions.truncate(8);
    assert_eq!(get_num_instances(&state), 2);
    assert_eq!(perform_sort(&mut state, &to_bits(&[1.0, 5.0])), Ok(2));
    assert_eq!(state.indices, vec![1, 0]);
    check_slot(&state, 0, 1);
    check_slot(&state, 1, 0);
}

#[test]
fn division_by_zero_w_gives_an_infinite_depth() {
    let mut state = Sorter::new();
    // The last row is zero, so every depth is z / 0.
    let mut m = IDENTITY;
    m[15] = 0.0;
    load_camera(&mut state, &m);
    load_instances(&mut state, &[0.0, 0.0, 1.0, 0.0, 0.0, -5.0, 0.0, 0.0, 3.0]);
    let depths = depths_of(&state);
    assert_eq!(
        to_floats(&depths),
        vec![f32::INFINITY, f32::NEG_INFINITY, f32::INFINITY]
    );
    assert_eq!(perform_sort(&mut state, &depths), Ok(2));
    assert_eq!(state.indices, vec![0, 2, 1]);
    check_slot(&state, 0, 0);
    check_slot(&state, 1, 2);
}

#[test]
fn perspective_divide_orders_by_z_over_w() {
    let mut state = Sorter::new();
    // w = x, depth = z / x.
    let mut m = IDENTITY;
    m[12] = 1.0;
    m[15] = 0.0;
    load_camera(&mut state, &m);
    load_instances(&mut state, &[2.0, 0.0, 8.0, 4.0, 0.0, 8.0, 1.0, 0.0, 3.0, -1.0, 0.0, 9.0]);
    let depths = depths_of(&state);
    assert_eq!(to_floats(&depths), vec![4.0, 2.0, 3.0, -9.0]);
    assert_eq!(perform_sort(&mut state, &depths), Ok(3));
    assert_eq!(state.indices, vec![0, 2, 1, 3]);
}

#[test]
fn count_is_the_number_of_depths_that_a_pass_takes() {
    for len in 0..20usize {
        let mut state = Sorter::new();
        resize_buffers(&mut state, 8);
        state.positions.truncate(len);
        let n = get_num_instances(&state) as usize;
        assert_eq!(n, len / 3);
        assert!(perform_sort(&mut state, &vec![1.0f32.to_bits(); n]).is_ok());
        assert_eq!(
            perform_sort(&mut state, &vec![1.0f32.to_bits(); n + 1]),
            Err(SortError::InvalidInput)
        );
    }
}
