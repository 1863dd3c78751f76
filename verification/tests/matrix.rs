use dense_array::array::Array;
use dense_array::error::ArrayError;
use dense_array::layout::DataOrder;
use dense_array::matrix::zeros;
use dense_array::matrix_simd::SimdSpecialized;

const ORDERS: [DataOrder; 2] = [DataOrder::ColMajor, DataOrder::RowMajor];

/// The matrix with the given rows, stored in `order`.
fn matrix(rows: &[Vec<i32>], order: DataOrder) -> Array<i32> {
    let count = rows.len();
    let cols = rows[0].len();
    let mut data = Vec::new();
    match order {
        DataOrder::RowMajor => {
            for r in 0..count {
                for c in 0..cols {
                    data.push(rows[r][c]);
                }
            }
        }
        DataOrder::ColMajor => {
            for c in 0..cols {
                for r in 0..count {
                    data.push(rows[r][c]);
                }
            }
        }
    }
    Array::with_order(data, vec![count, cols], order).unwrap()
}

/// The rows of a matrix, read through its layout.
fn rows_of(a: &Array<i32>) -> Vec<Vec<i32>> {
    let shape = a.shape();
    (0..shape[0]).map(|r| (0..shape[1]).map(|c| *a.get(&[r, c]).unwrap()).collect()).collect()
}

/// The product by the textbook definition, on plain rows.
fn expected_product(a: &[Vec<i32>], b: &[Vec<i32>], cols: usize) -> Vec<Vec<i32>> {
    a.iter()
        .map(|row| (0..cols).map(|c| (0..row.len()).map(|k| row[k] * b[k][c]).sum()).collect())
        .collect()
}

/// Small numbers that repeat from run to run.
fn numbers(rows: usize, cols: usize, seed: u32) -> Vec<Vec<i32>> {
    let mut state = seed;
    (0..rows)
        .map(|_| {
            (0..cols)
                .map(|_| {
                    state = state.wrapping_mul(1_103_515_245).wrapping_add(12_345);
                    ((state >> 16) % 201) as i32 - 100
                })
                .collect()
        })
        .collect()
}

#[test]
fn transpose_swaps_the_sizes_and_flips_the_order() {
    let a = Array::new(vec![1, 2, 3, 4, 5, 6], vec![2, 3]).unwrap();
    let t = a.transpose().unwrap();
    assert_eq!(t.shape(), &vec![3, 2]);
    assert_eq!(t.data_order(), DataOrder::RowMajor);
    assert_eq!(t.data(), a.data());
    for i in 0..2 {
        for j in 0..3 {
            assert_eq!(t.get(&[j, i]), a.get(&[i, j]));
        }
    }
}

#[test]
fn transposing_twice_gives_back_the_matrix() {
    for order in ORDERS {
        for (rows, cols) in [(1, 1), (2, 3), (3, 2), (4, 4), (1, 5), (3, 0)] {
            let data: Vec<i32> = (0..(rows * cols) as i32).collect();
            let a = Array::with_order(data, vec![rows, cols], order).unwrap();
            let back = a.transpose().unwrap().transpose().unwrap();
            assert_eq!(back.shape(), a.shape());
            assert_eq!(back.data_order(), a.data_order());
            assert_eq!(back.data(), a.data());
            let back = a.clone().transpose_inplace().unwrap().transpose_inplace().unwrap();
            assert_eq!(back.shape(), a.shape());
            assert_eq!(back.data_order(), a.data_order());
            assert_eq!(back.data(), a.data());
        }
    }
}

#[test]
fn transpose_refuses_every_rank_but_two() {
    let one = Array::new(vec![1, 2, 3], vec![3]).unwrap();
    assert_eq!(one.transpose().err(), Some(ArrayError::RankMismatch));
    let three = Array::new(vec![0; 8], vec![2, 2, 2]).unwrap();
    assert_eq!(three.transpose().err(), Some(ArrayError::RankMismatch));
    assert_eq!(three.transpose_inplace().err(), Some(ArrayError::RankMismatch));
    let none = Array::new(vec![1], vec![]).unwrap();
    assert_eq!(none.transpose().err(), Some(ArrayError::RankMismatch));
}

#[test]
fn naive_product_of_two_by_three_and_three_by_two() {
    let a_rows = vec![vec![1, 2, 3], vec![4, 5, 6]];
    let b_rows = vec![vec![1, 2], vec![3, 4], vec![5, 6]];
    for left in ORDERS {
        for right in ORDERS {
            let a = matrix(&a_rows, left);
            let b = matrix(&b_rows, right);
            let p = a.mul_naive(&b).unwrap();
            assert_eq!(p.shape(), &vec![2, 2]);
            assert_eq!(p.data_order(), left);
            assert_eq!(rows_of(&p), vec![vec![22, 28], vec![49, 64]]);
        }
    }
}

#[test]
fn vector_product_of_two_by_three_and_three_by_two() {
    let a_rows = vec![vec![1, 2, 3], vec![4, 5, 6]];
    let b_rows = vec![vec![1, 2], vec![3, 4], vec![5, 6]];
    for left in ORDERS {
        for right in ORDERS {
            let a = matrix(&a_rows, left);
            let b = matrix(&b_rows, right);
            let p = a.mul_standard_simd(&b).unwrap();
            assert_eq!(p.shape(), &vec![2, 2]);
            assert_eq!(p.data_order(), left);
            assert_eq!(rows_of(&p), vec![vec![22, 28], vec![49, 64]]);
        }
    }
}

#[test]
fn naive_product_refuses_inner_sizes_three_and_four() {
    let a = Array::new(vec![0; 6], vec![2, 3]).unwrap();
    let b = Array::new(vec![0; 8], vec![4, 2]).unwrap();
    assert!(matches!(a.mul_naive(&b), Err(ArrayError::DimensionMismatch { .. })));
    assert_eq!(a.mul_naive(&b).err(), Some(ArrayError::DimensionMismatch { input_check: true }));
    assert_eq!(
        a.mul_standard_simd(&b).err(),
        Some(ArrayError::DimensionMismatch { input_check: true })
    );
    assert_eq!(a.mul_strassen(&b).err(), Some(ArrayError::DimensionMismatch { input_check: true }));
}

#[test]
fn products_refuse_every_rank_but_two() {
    let vector = Array::new(vec![1, 2, 3], vec![3]).unwrap();
    let square = Array::new(vec![0; 9], vec![3, 3]).unwrap();
    let cube = Array::new(vec![0; 27], vec![3, 3, 3]).unwrap();
    assert_eq!(vector.mul_naive(&square).err(), Some(ArrayError::RankMismatch));
    assert_eq!(square.mul_naive(&vector).err(), Some(ArrayError::RankMismatch));
    assert_eq!(square.mul_naive(&cube).err(), Some(ArrayError::RankMismatch));
    assert_eq!(vector.mul_standard_simd(&square).err(), Some(ArrayError::RankMismatch));
    assert_eq!(square.mul_standard_simd(&cube).err(), Some(ArrayError::RankMismatch));
    assert_eq!(cube.mul_strassen(&square).err(), Some(ArrayError::RankMismatch));
}

#[test]
fn the_two_kernels_agree_whatever_the_inner_size() {
    let mut seed = 1;
    for inner in 0..14 {
        for (rows, cols) in [(1, 1), (2, 3), (3, 2), (5, 4)] {
            let a_rows = numbers(rows, inner, seed);
            let b_rows = numbers(inner, cols, seed + 1000);
            seed += 1;
            let expected =
                if inner == 0 { vec![vec![0; cols]; rows] } else { expected_product(&a_rows, &b_rows, cols) };
            for left in ORDERS {
                for right in ORDERS {
                    let a = if inner == 0 {
                        Array::with_order(vec![], vec![rows, 0], left).unwrap()
                    } else {
                        matrix(&a_rows, left)
                    };
                    let b = if inner == 0 {
                        Array::with_order(vec![], vec![0, cols], right).unwrap()
                    } else {
                        matrix(&b_rows, right)
                    };
                    let plain = a.mul_naive(&b).unwrap();
                    let by_lanes = a.mul_standard_simd(&b).unwrap();
                    assert_eq!(plain.shape(), &vec![rows, cols]);
                    assert_eq!(by_lanes.shape(), plain.shape());
                    assert_eq!(by_lanes.data_order(), plain.data_order());
                    assert_eq!(by_lanes.data(), plain.data());
                    assert_eq!(rows_of(&plain), expected);
                }
            }
        }
    }
}

#[test]
fn the_two_kernels_agree_with_five_places_and_four_lanes() {
    assert_eq!(<i32 as SimdSpecialized>::LANES, 4);
    let a_rows = vec![vec![1, 2, 3, 4, 5], vec![-1, -2, -3, -4, -5]];
    let b_rows = vec![vec![1, 0], vec![0, 1], vec![2, 2], vec![3, -3], vec![10, 100]];
    let a = matrix(&a_rows, DataOrder::RowMajor);
    let b = matrix(&b_rows, DataOrder::ColMajor);
    let plain = a.mul_naive(&b).unwrap();
    let by_lanes = a.mul_standard_simd(&b).unwrap();
    // 1 + 6 + 12 + 50 = 69, 2 + 6 - 12 + 500 = 496
    assert_eq!(rows_of(&plain), vec![vec![69, 496], vec![-69, -496]]);
    assert_eq!(rows_of(&by_lanes), vec![vec![69, 496], vec![-69, -496]]);
}

#[test]
fn vector_operations_of_i32_work_lane_by_lane() {
    let loaded = <i32 as SimdSpecialized>::load(&[1, 2, 3, 4, 5, 6]);
    assert_eq!(loaded, [1, 2, 3, 4]);
    let splat = <i32 as SimdSpecialized>::splat(7);
    assert_eq!(splat, [7, 7, 7, 7]);
    let fused = <i32 as SimdSpecialized>::multiply_add(loaded, splat, [1, 1, 1, 1]);
    assert_eq!(fused, [8, 15, 22, 29]);
    assert_eq!(<i32 as SimdSpecialized>::sum(fused), 74);
}

#[test]
fn product_with_the_identity_is_the_matrix() {
    let a_rows = numbers(4, 4, 77);
    let identity: Vec<Vec<i32>> =
        (0..4).map(|r| (0..4).map(|c| if r == c { 1 } else { 0 }).collect()).collect();
    for order in ORDERS {
        let a = matrix(&a_rows, order);
        let one = matrix(&identity, order.alternate());
        assert_eq!(rows_of(&a.mul_naive(&one).unwrap()), a_rows);
        assert_eq!(rows_of(&one.mul_standard_simd(&a).unwrap()), a_rows);
    }
}

#[test]
fn product_of_a_transpose_reads_the_transposed_rows() {
    let a_rows = vec![vec![1, 2, 3], vec![4, 5, 6]];
    let a = matrix(&a_rows, DataOrder::ColMajor);
    let gram = a.mul_naive(&a.transpose().unwrap()).unwrap();
    assert_eq!(rows_of(&gram), vec![vec![14, 32], vec![32, 77]]);
    let gram = a.transpose().unwrap().mul_standard_simd(&a).unwrap();
    assert_eq!(rows_of(&gram), vec![vec![17, 22, 27], vec![22, 29, 36], vec![27, 36, 45]]);
}

#[test]
fn deferred_operations_say_so() {
    let a = Array::new(vec![1, 2, 3, 4], vec![2, 2]).unwrap();
    assert_eq!(a.mul_strassen(&a).err(), Some(ArrayError::NotImplemented));
    assert_eq!(a.svd().err(), Some(ArrayError::NotImplemented));
    assert_eq!(a.qr().err(), Some(ArrayError::NotImplemented));
    assert!(a.svd().err().unwrap().is_recoverable());
}

#[test]
fn zeros_is_a_buffer_of_zeros() {
    assert_eq!(zeros::<i32>(4), vec![0, 0, 0, 0]);
    assert_eq!(zeros::<u64>(0), Vec::<u64>::new());
}
