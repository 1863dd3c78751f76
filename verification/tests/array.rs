use dense_array::array::{copy_shape, same_shape, Array};
use dense_array::error::ArrayError;
use dense_array::layout::DataOrder;

fn row_major(rows: usize, cols: usize, data: Vec<i32>) -> Array<i32> {
    Array::with_order(data, vec![rows, cols], DataOrder::RowMajor).unwrap()
}

#[test]
fn it_works() {
    let m = Array::from_rows(&[vec![1, 2], vec![3, 4], vec![5, 6]]).unwrap();
    let at = m.calculate_data_index_from_array_indices(vec![2, 1]);
    println!("{:?}", at);
    assert_eq!(at, Ok(5));
    assert_eq!(m.data()[5], 6);
    println!("{}", m.to_text());
    let reshaped = m.reshape_inplace(vec![1, 6]).unwrap();
    println!("{}", reshaped.to_text());
    assert_eq!(reshaped.shape(), &vec![1, 6]);
    assert_eq!(reshaped.data(), &vec![1, 2, 3, 4, 5, 6]);

    let m1 = Array::from_rows(&[vec![1, 2, 3], vec![4, 5, 6]]).unwrap();
    let m2 = m1.clone();
    let difference = m1.sub(&m2).unwrap();
    println!("{}", difference.to_text());
    assert_eq!(difference.data(), &vec![0; 6]);
    let difference = m1.sub_inplace(m2).unwrap();
    println!("{}", difference.to_text());
    assert_eq!(difference.data(), &vec![0; 6]);

    println!("matrix transformation");
    let m = Array::from_rows(&[vec![1, 2, 3], vec![4, 5, 6]]).unwrap();
    let mapped = m.map(|x| x - 3);
    println!("{}", mapped.to_text());
    println!("{}", m.to_text());
    assert_eq!(mapped.data(), &vec![-2, -1, 0, 1, 2, 3]);
    assert_eq!(m.data(), &vec![1, 2, 3, 4, 5, 6]);

    let m1 = Array::from_rows(&[vec![1, 2, 3], vec![4, 5, 6]]).unwrap();
    let m2 = Array::from_rows(&[vec![1, 2], vec![3, 4], vec![5, 6]]).unwrap();
    let product = m1.mul_naive(&m2).unwrap();
    println!("{}", product.to_text());
    assert_eq!(product.shape(), &vec![2, 2]);
    assert_eq!(product.get(&[0, 0]), Ok(&22));
    assert_eq!(product.get(&[0, 1]), Ok(&28));
    assert_eq!(product.get(&[1, 0]), Ok(&49));
    assert_eq!(product.get(&[1, 1]), Ok(&64));
    println!("test");
}

#[test]
fn new_takes_a_buffer_of_exactly_the_product_of_the_shape() {
    let shapes: Vec<Vec<usize>> = vec![
        vec![1],
        vec![6],
        vec![2, 3],
        vec![3, 2],
        vec![2, 3, 4],
        vec![1, 1, 1, 1],
        vec![2, 2, 2, 2],
        vec![5, 1, 2],
    ];
    for shape in shapes {
        let product: usize = shape.iter().product();
        for len in 0..product + 3 {
            let made = Array::new(vec![7i64; len], shape.clone());
            if len == product {
                let made = made.unwrap();
                assert_eq!(made.shape(), &shape);
                assert_eq!(made.data(), &vec![7i64; len]);
                assert_eq!(made.data_order(), DataOrder::ColMajor);
                assert_eq!(made.rank(), shape.len());
            } else {
                assert_eq!(made.err(), Some(ArrayError::ShapeMismatch));
            }
        }
    }
}

#[test]
fn new_with_no_axis_holds_one_element() {
    let scalar = Array::new(vec![9u8], vec![]).unwrap();
    assert_eq!(scalar.rank(), 0);
    assert_eq!(scalar.get(&[]), Ok(&9));
    assert_eq!(Array::new(Vec::<u8>::new(), vec![]).err(), Some(ArrayError::ShapeMismatch));
    assert_eq!(Array::new(vec![1u8, 2], vec![]).err(), Some(ArrayError::ShapeMismatch));
}

#[test]
fn new_with_an_empty_axis_holds_nothing() {
    let empty = Array::new(Vec::<i32>::new(), vec![3, 0]).unwrap();
    assert_eq!(empty.data().len(), 0);
    assert_eq!(empty.get(&[0, 0]), Err(ArrayError::IndexOutOfBounds));
    assert_eq!(Array::new(vec![1], vec![3, 0]).err(), Some(ArrayError::ShapeMismatch));
}

#[test]
fn with_order_keeps_the_order() {
    let a = Array::with_order(vec![1, 2, 3, 4, 5, 6], vec![2, 3], DataOrder::RowMajor).unwrap();
    assert_eq!(a.data_order(), DataOrder::RowMajor);
    assert_eq!(a.get(&[1, 0]), Ok(&4));
    let b = Array::with_order(vec![1, 2, 3, 4, 5, 6], vec![2, 3], DataOrder::ColMajor).unwrap();
    assert_eq!(b.data_order(), DataOrder::ColMajor);
    assert_eq!(b.get(&[1, 0]), Ok(&2));
    assert_eq!(
        Array::with_order(vec![1, 2, 3], vec![2, 3], DataOrder::RowMajor).err(),
        Some(ArrayError::ShapeMismatch)
    );
}

#[test]
fn from_rows_lays_the_rows_out_one_after_the_other() {
    let a = Array::from_rows(&[vec![1, 2, 3], vec![4, 5, 6]]).unwrap();
    assert_eq!(a.shape(), &vec![2, 3]);
    assert_eq!(a.data_order(), DataOrder::RowMajor);
    assert_eq!(a.data(), &vec![1, 2, 3, 4, 5, 6]);
    for r in 0..2 {
        for c in 0..3 {
            assert_eq!(a.get(&[r, c]), Ok(&((r * 3 + c + 1) as i32)));
        }
    }
}

#[test]
fn from_rows_refuses_rows_of_different_lengths_and_no_rows() {
    assert_eq!(
        Array::from_rows(&[vec![1, 2, 3], vec![4, 5]]).err(),
        Some(ArrayError::ShapeMismatch)
    );
    assert_eq!(
        Array::from_rows(&[vec![1], vec![4, 5]]).err(),
        Some(ArrayError::ShapeMismatch)
    );
    let none: Vec<Vec<i32>> = Vec::new();
    assert_eq!(Array::from_rows(&none).err(), Some(ArrayError::ShapeMismatch));
    let empty_rows = Array::from_rows(&[Vec::<i32>::new(), Vec::new()]).unwrap();
    assert_eq!(empty_rows.shape(), &vec![2, 0]);
}

#[test]
fn get_reads_through_the_layout() {
    let a = Array::new(vec![10, 20, 30, 40, 50, 60], vec![2, 3]).unwrap();
    assert_eq!(a.get(&[0, 0]), Ok(&10));
    assert_eq!(a.get(&[1, 0]), Ok(&20));
    assert_eq!(a.get(&[0, 1]), Ok(&30));
    assert_eq!(a.get(&[1, 2]), Ok(&60));
    assert_eq!(a.get(&[2, 0]), Err(ArrayError::IndexOutOfBounds));
    assert_eq!(a.get(&[0]), Err(ArrayError::IndexOutOfBounds));
    assert_eq!(a.calculate_data_index_from_array_indices(vec![1, 2]), Ok(5));
    assert_eq!(
        a.calculate_data_index_from_array_indices(vec![1, 3]),
        Err(ArrayError::IndexOutOfBounds)
    );
    assert_eq!(
        a.calculate_data_index_from_array_indices(vec![1, 2, 0]),
        Err(ArrayError::IndexOutOfBounds)
    );
}

#[test]
fn reshape_copies_the_buffer_under_the_new_shape() {
    let a = Array::new(vec![1, 2, 3, 4, 5, 6], vec![2, 3]).unwrap();
    let b = a.reshape(vec![3, 2]).unwrap();
    assert_eq!(b.shape(), &vec![3, 2]);
    assert_eq!(b.data(), a.data());
    assert_eq!(b.data_order(), a.data_order());
    assert_eq!(a.shape(), &vec![2, 3]);
    let c = a.reshape(vec![6]).unwrap();
    assert_eq!(c.rank(), 1);
    let d = a.reshape(vec![1, 2, 3, 1]).unwrap();
    assert_eq!(d.rank(), 4);
    assert_eq!(d.data(), &vec![1, 2, 3, 4, 5, 6]);
}

#[test]
fn reshape_refuses_a_shape_of_another_size() {
    let a = Array::new(vec![1, 2, 3, 4, 5, 6], vec![2, 3]).unwrap();
    assert_eq!(a.reshape(vec![4, 2]).err(), Some(ArrayError::ShapeMismatch));
    assert_eq!(a.reshape(vec![5]).err(), Some(ArrayError::ShapeMismatch));
    assert_eq!(a.reshape(vec![]).err(), Some(ArrayError::ShapeMismatch));
    assert_eq!(a.reshape(vec![6, 0]).err(), Some(ArrayError::ShapeMismatch));
    assert_eq!(a.clone().reshape_inplace(vec![7]).err(), Some(ArrayError::ShapeMismatch));
}

#[test]
fn reshape_inplace_keeps_the_buffer_and_the_order() {
    let a = row_major(2, 3, vec![1, 2, 3, 4, 5, 6]);
    let b = a.reshape_inplace(vec![3, 2]).unwrap();
    assert_eq!(b.shape(), &vec![3, 2]);
    assert_eq!(b.data(), &vec![1, 2, 3, 4, 5, 6]);
    assert_eq!(b.data_order(), DataOrder::RowMajor);
}

#[test]
fn map_applies_the_function_to_every_element() {
    let a = row_major(2, 2, vec![1, 2, 3, 4]);
    let doubled = a.map(|x| x * 2);
    assert_eq!(doubled.data(), &vec![2, 4, 6, 8]);
    assert_eq!(doubled.shape(), a.shape());
    assert_eq!(doubled.data_order(), DataOrder::RowMajor);
    assert_eq!(a.data(), &vec![1, 2, 3, 4]);
    let widened: Array<i64> = a.map(|x| x as i64 * 1_000_000_000_000);
    assert_eq!(widened.data(), &vec![1_000_000_000_000i64, 2_000_000_000_000, 3_000_000_000_000, 4_000_000_000_000]);
}

#[test]
fn map_inplace_applies_the_function_to_every_element() {
    let a = row_major(2, 2, vec![1, 2, 3, 4]);
    let shifted: Array<u8> = a.map_inplace(|x| (x + 10) as u8);
    assert_eq!(shifted.data(), &vec![11u8, 12, 13, 14]);
    assert_eq!(shifted.shape(), &vec![2, 2]);
    assert_eq!(shifted.data_order(), DataOrder::RowMajor);
}

#[test]
fn add_sums_place_by_place() {
    let a = Array::new(vec![1, 2, 3, 4, 5, 6], vec![2, 3]).unwrap();
    let b = Array::new(vec![10, 20, 30, 40, 50, 60], vec![2, 3]).unwrap();
    let sum = a.add(&b).unwrap();
    assert_eq!(sum.data(), &vec![11, 22, 33, 44, 55, 66]);
    assert_eq!(sum.shape(), &vec![2, 3]);
    assert_eq!(sum.data_order(), DataOrder::ColMajor);
    assert_eq!(a.data(), &vec![1, 2, 3, 4, 5, 6]);
    let sum = a.add_inplace(b).unwrap();
    assert_eq!(sum.data(), &vec![11, 22, 33, 44, 55, 66]);
}

#[test]
fn sub_takes_away_place_by_place() {
    let a = Array::new(vec![1, 2, 3, 4, 5, 6], vec![2, 3]).unwrap();
    let b = Array::new(vec![10, 20, 30, 40, 50, 60], vec![2, 3]).unwrap();
    let difference = a.sub(&b).unwrap();
    assert_eq!(difference.data(), &vec![-9, -18, -27, -36, -45, -54]);
    assert_eq!(difference.shape(), &vec![2, 3]);
    let difference = b.sub_inplace(a).unwrap();
    assert_eq!(difference.data(), &vec![9, 18, 27, 36, 45, 54]);
}

#[test]
fn add_of_two_by_three_and_three_by_two_is_a_dimension_mismatch() {
    let a = Array::new(vec![0; 6], vec![2, 3]).unwrap();
    let b = Array::new(vec![0; 6], vec![3, 2]).unwrap();
    assert_eq!(a.add(&b).err(), Some(ArrayError::DimensionMismatch { input_check: true }));
    assert_eq!(a.sub(&b).err(), Some(ArrayError::DimensionMismatch { input_check: true }));
    assert_eq!(
        a.clone().add_inplace(b.clone()).err(),
        Some(ArrayError::DimensionMismatch { input_check: false })
    );
    assert_eq!(
        a.sub_inplace(b).err(),
        Some(ArrayError::DimensionMismatch { input_check: false })
    );
}

#[test]
fn add_refuses_shapes_of_different_rank() {
    let a = Array::new(vec![0; 6], vec![6]).unwrap();
    let b = Array::new(vec![0; 6], vec![6, 1]).unwrap();
    assert!(matches!(a.add(&b), Err(ArrayError::DimensionMismatch { .. })));
}

#[test]
fn adding_and_taking_away_again_gives_back_the_array() {
    let a = Array::new(vec![5, -7, 0, 123_456, -99, 1], vec![3, 2]).unwrap();
    let b = Array::new(vec![-5, 70, 8, 654_321, 99, i32::MAX - 1], vec![3, 2]).unwrap();
    let back = a.add(&b).unwrap().sub(&b).unwrap();
    assert_eq!(back.data(), a.data());
    assert_eq!(back.shape(), a.shape());
    assert_eq!(back.data_order(), a.data_order());
    let back = a.clone().add_inplace(b.clone()).unwrap().sub_inplace(b).unwrap();
    assert_eq!(back.data(), a.data());
    let x = Array::new(vec![200u8, 0, 17], vec![3]).unwrap();
    let y = Array::new(vec![55u8, 255, 3], vec![3]).unwrap();
    assert_eq!(x.add(&y).unwrap().sub(&y).unwrap().data(), x.data());
}

#[test]
fn mul_scales_every_element() {
    let a = row_major(2, 2, vec![1, -2, 3, 4]);
    let scaled = a.mul(3);
    assert_eq!(scaled.data(), &vec![3, -6, 9, 12]);
    assert_eq!(scaled.shape(), &vec![2, 2]);
    assert_eq!(scaled.data_order(), DataOrder::RowMajor);
}

#[test]
fn clone_and_parts_keep_everything() {
    let a = row_major(2, 3, vec![1, 2, 3, 4, 5, 6]);
    let b = a.clone();
    assert_eq!(a.data(), b.data());
    assert_eq!(a.shape(), b.shape());
    assert_eq!(a.data_order(), b.data_order());
    let (data, shape, order) = b.into_parts();
    assert_eq!(data, vec![1, 2, 3, 4, 5, 6]);
    assert_eq!(shape, vec![2, 3]);
    assert_eq!(order, DataOrder::RowMajor);
    assert_eq!(a.into_data(), vec![1, 2, 3, 4, 5, 6]);
}

#[test]
fn shapes_compare_and_copy() {
    assert!(same_shape(&[2, 3], &[2, 3]));
    assert!(!same_shape(&[2, 3], &[3, 2]));
    assert!(!same_shape(&[2, 3], &[2, 3, 1]));
    assert!(same_shape(&[], &[]));
    assert_eq!(copy_shape(&vec![4, 5, 6]), vec![4, 5, 6]);
}

#[test]
fn error_messages_tell_the_two_dimension_mismatches_apart() {
    let checked = ArrayError::DimensionMismatch { input_check: true };
    let plain = ArrayError::DimensionMismatch { input_check: false };
    assert_eq!(checked.message(), "Check Input: Dimension Mismatch!");
    assert_eq!(plain.message(), "Dimension Mismatch!");
    assert_ne!(checked.message(), plain.message());
    assert_eq!(ArrayError::ShapeMismatch.message(), "Shape Mismatch!");
    assert_eq!(ArrayError::IndexOutOfBounds.message(), "Index Out Of Bounds!");
    assert_eq!(ArrayError::RankMismatch.message(), "Rank Mismatch!");
    assert_eq!(ArrayError::NotImplemented.message(), "Not Implemented!");
}

#[test]
fn only_a_deferred_operation_is_recoverable() {
    assert!(ArrayError::NotImplemented.is_recoverable());
    assert!(!ArrayError::ShapeMismatch.is_recoverable());
    assert!(!ArrayError::DimensionMismatch { input_check: true }.is_recoverable());
    assert!(!ArrayError::DimensionMismatch { input_check: false }.is_recoverable());
    assert!(!ArrayError::IndexOutOfBounds.is_recoverable());
    assert!(!ArrayError::RankMismatch.is_recoverable());
}

#[test]
fn filled_puts_the_value_in_every_place() {
    let a = Array::filled(7u16, vec![2, 3]).unwrap();
    assert_eq!(a.data(), &vec![7u16; 6]);
    assert_eq!(a.shape(), &vec![2, 3]);
    assert_eq!(a.data_order(), DataOrder::ColMajor);
    assert_eq!(Array::filled(7u16, vec![]).unwrap().data(), &vec![7u16]);
    assert_eq!(Array::filled(7u16, vec![4, 0]).unwrap().data(), &Vec::<u16>::new());
    assert_eq!(Array::filled(7u16, vec![usize::MAX, 2]).err(), Some(ArrayError::ShapeMismatch));
}

#[test]
fn zeros_and_ones_fill_with_the_identities() {
    let zeros = Array::<i32>::zeros(vec![2, 2, 2]).unwrap();
    assert_eq!(zeros.data(), &vec![0; 8]);
    assert_eq!(zeros.shape(), &vec![2, 2, 2]);
    let ones = Array::<u64>::ones(vec![3]).unwrap();
    assert_eq!(ones.data(), &vec![1u64; 3]);
    assert_eq!(Array::<i8>::ones(vec![usize::MAX, 3]).err(), Some(ArrayError::ShapeMismatch));
    let sum = zeros.add(&Array::<i32>::ones(vec![2, 2, 2]).unwrap()).unwrap();
    assert_eq!(sum.data(), &vec![1; 8]);
}
