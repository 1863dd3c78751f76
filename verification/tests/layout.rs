use dense_array::error::ArrayError;
use dense_array::layout::{
    col_major_indices, element_count, offset, offset_general, offset_rank_two, shape_holds,
    DataOrder,
};

/// The offset by the textbook sum of index times stride, written out again
/// here so that the library is held against something it does not share.
fn expected_offset(shape: &[usize], order: DataOrder, indices: &[usize]) -> usize {
    let rank = shape.len();
    let mut total = 0;
    for d in 0..rank {
        let mut stride = 1;
        match order {
            DataOrder::ColMajor => {
                for e in 0..d {
                    stride *= shape[e];
                }
            }
            DataOrder::RowMajor => {
                for e in d + 1..rank {
                    stride *= shape[e];
                }
            }
        }
        total += indices[d] * stride;
    }
    total
}

/// Every index of a shape, the first axis varying fastest.
fn all_indices(shape: &[usize]) -> Vec<Vec<usize>> {
    let mut found = vec![vec![]];
    for &size in shape.iter().rev() {
        let mut next = Vec::new();
        for tail in &found {
            for i in 0..size {
                let mut index = vec![i];
                index.extend_from_slice(tail);
                next.push(index);
            }
        }
        found = next;
    }
    found
}

fn small_shapes() -> Vec<Vec<usize>> {
    let mut shapes = Vec::new();
    for a in 1..4 {
        shapes.push(vec![a]);
        for b in 1..4 {
            shapes.push(vec![a, b]);
            for c in 1..4 {
                shapes.push(vec![a, b, c]);
                for d in 1..3 {
                    shapes.push(vec![a, b, c, d]);
                }
            }
        }
    }
    shapes
}

#[test]
fn alternate_flips_the_order() {
    assert_eq!(DataOrder::RowMajor.alternate(), DataOrder::ColMajor);
    assert_eq!(DataOrder::ColMajor.alternate(), DataOrder::RowMajor);
    assert_eq!(DataOrder::ColMajor.alternate().alternate(), DataOrder::ColMajor);
}

#[test]
fn offset_of_one_two_in_two_by_three_column_major_is_five() {
    assert_eq!(offset(&[2, 3], DataOrder::ColMajor, &[1, 2]), Ok(1 + 2 * 2));
    assert_eq!(offset(&[2, 3], DataOrder::ColMajor, &[1, 2]), Ok(5));
    assert_eq!(offset_rank_two(2, 3, DataOrder::ColMajor, 1, 2), 5);
}

#[test]
fn offset_of_one_two_in_two_by_three_row_major_is_five() {
    assert_eq!(offset(&[2, 3], DataOrder::RowMajor, &[1, 2]), Ok(2 + 1 * 3));
    assert_eq!(offset(&[2, 3], DataOrder::RowMajor, &[0, 2]), Ok(2));
    assert_eq!(offset(&[2, 3], DataOrder::ColMajor, &[0, 2]), Ok(4));
}

#[test]
fn offset_with_one_axis_is_the_index() {
    for order in [DataOrder::ColMajor, DataOrder::RowMajor] {
        for i in 0..7 {
            assert_eq!(offset(&[7], order, &[i]), Ok(i));
        }
    }
}

#[test]
fn offset_with_no_axis_is_zero() {
    assert_eq!(offset(&[], DataOrder::ColMajor, &[]), Ok(0));
    assert_eq!(offset(&[], DataOrder::RowMajor, &[]), Ok(0));
}

#[test]
fn offset_three_axes_by_hand() {
    // i + j * 2 + k * 2 * 3
    assert_eq!(offset(&[2, 3, 4], DataOrder::ColMajor, &[1, 2, 3]), Ok(1 + 4 + 18));
    // k + j * 4 + i * 4 * 3
    assert_eq!(offset(&[2, 3, 4], DataOrder::RowMajor, &[1, 2, 3]), Ok(3 + 8 + 12));
}

#[test]
fn closed_forms_agree_with_the_general_formula_on_small_shapes() {
    for shape in small_shapes() {
        for order in [DataOrder::ColMajor, DataOrder::RowMajor] {
            for index in all_indices(&shape) {
                let expected = expected_offset(&shape, order, &index);
                assert_eq!(offset(&shape, order, &index), Ok(expected));
                assert_eq!(offset_general(&shape, order, &index), expected);
                if shape.len() == 2 {
                    assert_eq!(
                        offset_rank_two(shape[0], shape[1], order, index[0], index[1]),
                        expected
                    );
                }
            }
        }
    }
}

#[test]
fn offsets_of_a_shape_fill_the_buffer_once() {
    for shape in small_shapes() {
        let len: usize = shape.iter().product();
        for order in [DataOrder::ColMajor, DataOrder::RowMajor] {
            let mut seen = vec![false; len];
            for index in all_indices(&shape) {
                let at = offset(&shape, order, &index).unwrap();
                assert!(at < len);
                assert!(!seen[at]);
                seen[at] = true;
            }
            assert!(seen.iter().all(|&s| s));
        }
    }
}

#[test]
fn offset_refuses_an_index_at_the_size_of_its_axis() {
    assert_eq!(offset(&[2, 3], DataOrder::ColMajor, &[2, 0]), Err(ArrayError::IndexOutOfBounds));
    assert_eq!(offset(&[2, 3], DataOrder::ColMajor, &[0, 3]), Err(ArrayError::IndexOutOfBounds));
    assert_eq!(offset(&[2, 3], DataOrder::RowMajor, &[1, 3]), Err(ArrayError::IndexOutOfBounds));
    assert_eq!(offset(&[4], DataOrder::RowMajor, &[4]), Err(ArrayError::IndexOutOfBounds));
    assert_eq!(
        offset(&[2, 3, 4], DataOrder::ColMajor, &[1, 2, 4]),
        Err(ArrayError::IndexOutOfBounds)
    );
}

#[test]
fn offset_refuses_an_index_of_another_rank() {
    assert_eq!(offset(&[2, 3], DataOrder::ColMajor, &[1]), Err(ArrayError::IndexOutOfBounds));
    assert_eq!(offset(&[2, 3], DataOrder::ColMajor, &[1, 1, 0]), Err(ArrayError::IndexOutOfBounds));
    assert_eq!(offset(&[], DataOrder::ColMajor, &[0]), Err(ArrayError::IndexOutOfBounds));
}

#[test]
fn offset_refuses_every_index_of_an_empty_axis() {
    assert_eq!(offset(&[0], DataOrder::ColMajor, &[0]), Err(ArrayError::IndexOutOfBounds));
    assert_eq!(offset(&[3, 0], DataOrder::RowMajor, &[1, 0]), Err(ArrayError::IndexOutOfBounds));
}

#[test]
fn shape_holds_exactly_its_product() {
    assert!(shape_holds(&[2, 3], 6));
    assert!(!shape_holds(&[2, 3], 5));
    assert!(!shape_holds(&[2, 3], 7));
    assert!(shape_holds(&[], 1));
    assert!(!shape_holds(&[], 0));
    assert!(shape_holds(&[4, 0, 5], 0));
    assert!(!shape_holds(&[4, 0, 5], 20));
    assert!(shape_holds(&[2, 3, 4], 24));
}

#[test]
fn shape_holds_is_false_when_the_product_is_past_any_length() {
    assert!(!shape_holds(&[usize::MAX, 2], 0));
    assert!(!shape_holds(&[usize::MAX, usize::MAX], usize::MAX));
    assert!(!shape_holds(&[usize::MAX, 2], usize::MAX.wrapping_mul(2)));
    assert!(shape_holds(&[usize::MAX, 2, 0], 0));
    assert!(shape_holds(&[usize::MAX, 1], usize::MAX));
}

#[test]
fn col_major_indices_undo_the_offset() {
    for shape in small_shapes() {
        let len: usize = shape.iter().product();
        for at in 0..len {
            let index = col_major_indices(&shape, at).unwrap();
            assert_eq!(offset(&shape, DataOrder::ColMajor, &index), Ok(at));
        }
        assert_eq!(col_major_indices(&shape, len), Err(ArrayError::IndexOutOfBounds));
        assert_eq!(col_major_indices(&shape, len + 5), Err(ArrayError::IndexOutOfBounds));
    }
}

#[test]
fn col_major_indices_by_hand() {
    // 23 = 1 + 2 * 2 + 3 * 6
    assert_eq!(col_major_indices(&[2, 3, 4], 23), Ok(vec![1, 2, 3]));
    assert_eq!(col_major_indices(&[2, 3, 4], 7), Ok(vec![1, 0, 1]));
    assert_eq!(col_major_indices(&[], 0), Ok(vec![]));
    assert_eq!(col_major_indices(&[], 1), Err(ArrayError::IndexOutOfBounds));
    assert_eq!(col_major_indices(&[3, 0], 0), Err(ArrayError::IndexOutOfBounds));
}

#[test]
fn element_count_is_the_product_of_the_sizes() {
    assert_eq!(element_count(&[]), Some(1));
    assert_eq!(element_count(&[7]), Some(7));
    assert_eq!(element_count(&[2, 3, 4]), Some(24));
    assert_eq!(element_count(&[2, 0, 4]), Some(0));
    assert_eq!(element_count(&[usize::MAX, 1, 1]), Some(usize::MAX));
}

#[test]
fn element_count_is_none_past_any_length() {
    assert_eq!(element_count(&[usize::MAX, 2]), None);
    assert_eq!(element_count(&[1 << 40, 1 << 40, 1 << 40]), None);
    assert_eq!(element_count(&[usize::MAX, usize::MAX, 0]), Some(0));
}

#[test]
fn one_step_along_an_axis_moves_the_offset_by_its_stride() {
    // column-major strides of [2, 3, 4] are 1, 2, 6; row-major 12, 4, 1
    let shape = [2, 3, 4];
    let at = |order, index: [usize; 3]| offset(&shape, order, &index).unwrap();
    assert_eq!(at(DataOrder::ColMajor, [1, 1, 1]) - at(DataOrder::ColMajor, [0, 1, 1]), 1);
    assert_eq!(at(DataOrder::ColMajor, [1, 2, 1]) - at(DataOrder::ColMajor, [1, 1, 1]), 2);
    assert_eq!(at(DataOrder::ColMajor, [1, 1, 3]) - at(DataOrder::ColMajor, [1, 1, 2]), 6);
    assert_eq!(at(DataOrder::RowMajor, [1, 1, 1]) - at(DataOrder::RowMajor, [0, 1, 1]), 12);
    assert_eq!(at(DataOrder::RowMajor, [1, 2, 1]) - at(DataOrder::RowMajor, [1, 1, 1]), 4);
    assert_eq!(at(DataOrder::RowMajor, [1, 1, 3]) - at(DataOrder::RowMajor, [1, 1, 2]), 1);
    assert_eq!(at(DataOrder::ColMajor, [0, 0, 0]), 0);
    assert_eq!(at(DataOrder::RowMajor, [0, 0, 0]), 0);
}
