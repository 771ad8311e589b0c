use hyperplonk_evm::concat::{ConcatMats, ConcatMatsMeta, Dimensions, RowMajorMatrix};

fn dims(width: usize, height: usize) -> Dimensions {
    Dimensions { width, height }
}

fn matrix(width: usize, height: usize, first: u32) -> RowMajorMatrix {
    RowMajorMatrix { values: (0..(width * height) as u32).map(|v| first + v).collect(), width }
}

#[test]
fn layout_orders_by_entries_descending() {
    // Entries: 6, 4, 4; padded sizes: 4 * 2, 1 * 4, 2 * 2.
    let meta = ConcatMatsMeta::new(vec![dims(3, 2), dims(1, 4), dims(2, 2)]);
    assert_eq!(meta.ranges, vec![0..8, 8..12, 12..16]);
    assert_eq!(meta.log_b, 4);
    assert_eq!(meta.dimensions, vec![dims(3, 2), dims(1, 4), dims(2, 2)]);
}

#[test]
fn layout_keeps_given_order_in_ties_and_restores_it() {
    // The smallest matrix comes first in the input but last in the layout.
    let meta = ConcatMatsMeta::new(vec![dims(1, 1), dims(2, 2), dims(4, 1), dims(8, 4)]);
    assert_eq!(meta.ranges, vec![40..41, 32..36, 36..40, 0..32]);
    assert_eq!(meta.log_b, 6);
}

#[test]
fn layout_of_nothing() {
    let meta = ConcatMatsMeta::new(vec![]);
    assert!(meta.ranges.is_empty());
    assert_eq!(meta.log_b, 0);
    assert_eq!(meta.max_log_width(), 0);
}

#[test]
fn ranges_are_aligned_for_power_of_two_heights() {
    let meta = ConcatMatsMeta::new(vec![dims(3, 1), dims(5, 2), dims(1, 8), dims(2, 1)]);
    for (d, r) in meta.dimensions.iter().zip(&meta.ranges) {
        let size = d.width.next_power_of_two() * d.height;
        assert_eq!(r.end - r.start, size);
        assert_eq!(r.start % size, 0);
    }
}

#[test]
fn max_log_width_is_widest_ceil_log2() {
    let meta = ConcatMatsMeta::new(vec![dims(3, 2), dims(1, 4), dims(5, 1)]);
    assert_eq!(meta.max_log_width(), 3);
    let meta = ConcatMatsMeta::new(vec![dims(1, 4), dims(2, 4)]);
    assert_eq!(meta.max_log_width(), 1);
}

#[test]
fn concat_values_and_padding() {
    let a = matrix(3, 2, 1); // rows [1 2 3] [4 5 6]
    let b = matrix(1, 4, 10); // rows [10] [11] [12] [13]
    let c = matrix(2, 2, 20); // rows [20 21] [22 23]
    let concat = ConcatMats::new(vec![a, b, c]);
    assert_eq!(
        concat.values,
        vec![1, 2, 3, 0, 4, 5, 6, 0, 10, 11, 12, 13, 20, 21, 22, 23]
    );
    assert_eq!(concat.meta.log_b, 4);
}

#[test]
fn concat_pads_to_power_of_two_total() {
    let concat = ConcatMats::new(vec![matrix(3, 1, 7), matrix(1, 1, 9)]);
    // Sizes 4 and 1: total 5, padded to 8 evaluations.
    assert_eq!(concat.meta.log_b, 3);
    assert_eq!(concat.values, vec![7, 8, 9, 0, 9, 0, 0, 0]);
}

#[test]
fn mat_reads_back_each_matrix() {
    let mats = vec![matrix(3, 2, 1), matrix(1, 4, 10), matrix(2, 2, 20), matrix(5, 3, 100)];
    let concat = ConcatMats::new(mats.clone());
    for (i, m) in mats.iter().enumerate() {
        let back = concat.mat(i);
        assert_eq!(back.width, m.width);
        assert_eq!(back.values, m.values);
    }
}

#[test]
fn dimensions_of_matrix() {
    assert_eq!(matrix(3, 2, 0).dimensions(), dims(3, 2));
    assert_eq!(RowMajorMatrix { values: vec![], width: 0 }.dimensions(), dims(0, 0));
}

#[test]
fn sub_cube_selectors_are_start_bits() {
    let meta = ConcatMatsMeta::new(vec![dims(3, 2), dims(1, 4), dims(2, 2)]);
    assert_eq!(meta.sub_cube_selector(0), vec![false]);
    assert_eq!(meta.sub_cube_selector(1), vec![false, true]);
    assert_eq!(meta.sub_cube_selector(2), vec![true, true]);
}

#[test]
fn sub_cube_selector_of_whole_cube_is_empty() {
    let meta = ConcatMatsMeta::new(vec![dims(4, 4)]);
    assert_eq!(meta.log_b, 4);
    assert!(meta.sub_cube_selector(0).is_empty());
}

#[test]
fn points_of_a_range_share_its_selector() {
    let meta = ConcatMatsMeta::new(vec![dims(3, 1), dims(5, 2), dims(1, 8), dims(2, 1)]);
    for (idx, r) in meta.ranges.iter().enumerate() {
        let l = (r.end - r.start).trailing_zeros() as usize;
        let bits = meta.sub_cube_selector(idx);
        for p in 0..(1usize << meta.log_b) {
            let same = bits.iter().enumerate().all(|(k, &b)| ((p >> (l + k)) & 1 == 1) == b);
            assert_eq!(same, r.contains(&p));
        }
    }
}
