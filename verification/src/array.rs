//! The array container: a flat buffer, a shape and a layout, with the
//! operations that keep the three in step.

use vstd::prelude::*;
use crate::error::ArrayError;
use crate::layout::{
    element_count, lemma_offset_rank_two, offset, offset_spec, shape_holds, shape_product,
    valid_indices, DataOrder,
};
use crate::scalar::{
    duplicate, duplicate_buffer, subtraction_undoes_addition, sums_can_be_taken_back, Scalar,
};
use std::ops::{Add, Mul, Sub};
use vstd::arithmetic::div_mod::lemma_fundamental_div_mod_converse;
use vstd::std_specs::ops::{AddSpec, MulSpec, SubSpec};

verus! {

/// What an array is, mathematically: its buffer in raw order, its shape and
/// its layout.
pub struct ArrayView<T> {
    /// The elements, in the order of the buffer.
    pub data: Seq<T>,
    /// The size of each axis.
    pub shape: Seq<usize>,
    /// The order in which the buffer lays the axes out.
    pub data_order: DataOrder,
}

impl<T> ArrayView<T> {
    /// The buffer holds exactly as many elements as the shape asks for.
    pub open spec fn well_formed(self) -> bool {
        shape_product(self.shape) == self.data.len()
    }

    /// The number of axes.
    pub open spec fn rank(self) -> nat {
        self.shape.len()
    }

    /// The element at a multi-dimensional index.
    pub open spec fn element(self, indices: Seq<usize>) -> T
        recommends
            self.well_formed(),
            valid_indices(self.shape, indices),
    {
        self.data[offset_spec(self.shape, self.data_order, indices) as int]
    }

    /// The element in row `i` and column `j` of a matrix.
    pub open spec fn entry(self, i: int, j: int) -> T
        recommends
            self.well_formed(),
            self.rank() == 2,
            0 <= i < self.shape[0],
            0 <= j < self.shape[1],
    {
        self.element(seq![i as usize, j as usize])
    }

    /// Row `i` of a matrix, from its first column to its last.
    pub open spec fn row(self, i: int) -> Seq<T>
        recommends
            self.rank() == 2,
    {
        Seq::new(self.shape[1] as nat, |q: int| self.entry(i, q))
    }

    /// Column `j` of a matrix, from its first row to its last.
    pub open spec fn column(self, j: int) -> Seq<T>
        recommends
            self.rank() == 2,
    {
        Seq::new(self.shape[0] as nat, |q: int| self.entry(q, j))
    }

    /// The transpose of a matrix: the two sizes change places and the layout
    /// flips, over the same buffer.
    pub open spec fn transposed(self) -> ArrayView<T>
        recommends
            self.rank() == 2,
    {
        ArrayView {
            data: self.data,
            shape: seq![self.shape[1], self.shape[0]],
            data_order: self.data_order.spec_alternate(),
        }
    }

    /// The same buffer and layout under another shape.
    pub open spec fn reshaped(self, shape: Seq<usize>) -> ArrayView<T> {
        ArrayView { data: self.data, shape: shape, data_order: self.data_order }
    }
}

/// A dense array of any rank: a flat buffer of scalars, the sizes of its axes,
/// and the order in which the buffer lays the axes out.
///
/// The buffer always holds exactly as many elements as the shape asks for.
#[derive(Debug)]
pub struct Array<T: Scalar> {
    data: Vec<T>,
    shape: Vec<usize>,
    data_order: DataOrder,
}

impl<T: Scalar> View for Array<T> {
    type V = ArrayView<T>;

    closed spec fn view(&self) -> ArrayView<T> {
        ArrayView { data: self.data@, shape: self.shape@, data_order: self.data_order }
    }
}

impl<T: Scalar> Clone for Array<T> {
    /// An array with the same shape and layout and a copy of the buffer.
    fn clone(&self) -> (copy: Self)
        ensures
            copy@ == self@,
    {
        proof {
            use_type_invariant(self);
        }
        Array {
            data: duplicate_buffer(&self.data),
            shape: copy_shape(&self.shape),
            data_order: self.data_order,
        }
    }
}

/// A copy of a shape.
pub fn copy_shape(shape: &Vec<usize>) -> (copy: Vec<usize>)
    ensures
        copy@ == shape@,
{
    let copy = shape.clone();
    proof {
        assert(copy@ =~= shape@);
    }
    copy
}

/// Whether two shapes are the same.
pub fn same_shape(left: &[usize], right: &[usize]) -> (same: bool)
    ensures
        same == (left@ == right@),
{
    if left.len() != right.len() {
        return false;
    }
    let rank: usize = left.len();
    let mut d: usize = 0;
    while d < rank
        invariant
            d <= rank,
            rank == left@.len(),
            rank == right@.len(),
            forall|e: int| 0 <= e < d ==> left@[e] == right@[e],
        decreases rank - d,
    {
        if left[d] != right[d] {
            return false;
        }
        d += 1;
    }
    proof {
        assert(left@ =~= right@);
    }
    true
}

impl<T: Scalar> Array<T> {
    #[verifier::type_invariant]
    spec fn buffer_fits_shape(self) -> bool {
        shape_product(self.shape@) == self.data@.len()
    }

    /// An array over `data` of shape `shape`, laid out column-major.
    ///
    /// It is refused unless the buffer holds exactly as many elements as the
    /// shape asks for.
    pub fn new(data: Vec<T>, shape: Vec<usize>) -> (made: Result<Self, ArrayError>)
        ensures
            shape_product(shape@) == data@.len() ==> made is Ok && made->Ok_0@ == (ArrayView {
                data: data@,
                shape: shape@,
                data_order: DataOrder::ColMajor,
            }),
            shape_product(shape@) != data@.len() ==> made is Err && made->Err_0
                == ArrayError::ShapeMismatch,
    {
        Self::with_order(data, shape, DataOrder::ColMajor)
    }

    /// An array over `data` of shape `shape`, laid out in `data_order`.
    ///
    /// It is refused unless the buffer holds exactly as many elements as the
    /// shape asks for.
    pub fn with_order(data: Vec<T>, shape: Vec<usize>, data_order: DataOrder) -> (made: Result<
        Self,
        ArrayError,
    >)
        ensures
            shape_product(shape@) == data@.len() ==> made is Ok && made->Ok_0@ == (ArrayView {
                data: data@,
                shape: shape@,
                data_order: data_order,
            }),
            shape_product(shape@) != data@.len() ==> made is Err && made->Err_0
                == ArrayError::ShapeMismatch,
    {
        if shape_holds(shape.as_slice(), data.len()) {
            Ok(Array { data, shape, data_order })
        } else {
            Err(ArrayError::ShapeMismatch)
        }
    }

    /// An array of shape `shape` with `value` in every place, laid out
    /// column-major.
    ///
    /// It is refused unless a buffer can hold as many elements as the shape
    /// asks for.
    pub fn filled(value: T, shape: Vec<usize>) -> (made: Result<Self, ArrayError>)
        ensures
            shape_product(shape@) <= usize::MAX ==> made is Ok && made->Ok_0@ == (ArrayView {
                data: Seq::new(shape_product(shape@), |i: int| value),
                shape: shape@,
                data_order: DataOrder::ColMajor,
            }),
            shape_product(shape@) > usize::MAX ==> made is Err && made->Err_0
                == ArrayError::ShapeMismatch,
    {
        let count: usize = match element_count(shape.as_slice()) {
            Some(count) => count,
            None => {
                return Err(ArrayError::ShapeMismatch);
            },
        };
        let mut data: Vec<T> = Vec::with_capacity(count);
        let mut i: usize = 0;
        while i < count
            invariant
                i <= count,
                data@.len() == i,
                forall|k: int| 0 <= k < i ==> data@[k] == value,
            decreases count - i,
        {
            data.push(duplicate(&value));
            i += 1;
        }
        proof {
            assert(data@ =~= Seq::new(shape_product(shape@), |i: int| value));
        }
        Ok(Array { data, shape, data_order: DataOrder::ColMajor })
    }

    /// An array put together from parts that are known to fit.
    pub(crate) fn from_parts(data: Vec<T>, shape: Vec<usize>, data_order: DataOrder) -> (made: Self)
        requires
            shape_product(shape@) == data@.len(),
        ensures
            made@ == (ArrayView { data: data@, shape: shape@, data_order: data_order }),
    {
        Array { data, shape, data_order }
    }

    /// The buffer, the shape and the layout, given up by the array.
    pub fn into_parts(self) -> (parts: (Vec<T>, Vec<usize>, DataOrder))
        ensures
            parts.0@ == self@.data,
            parts.1@ == self@.shape,
            parts.2 == self@.data_order,
            self@.well_formed(),
    {
        proof {
            use_type_invariant(&self);
        }
        (self.data, self.shape, self.data_order)
    }

    /// The buffer, in raw order.
    pub fn data(&self) -> (data: &Vec<T>)
        ensures
            data@ == self@.data,
            self@.well_formed(),
    {
        proof {
            use_type_invariant(self);
        }
        &self.data
    }

    /// The sizes of the axes.
    pub fn shape(&self) -> (shape: &Vec<usize>)
        ensures
            shape@ == self@.shape,
            self@.well_formed(),
    {
        proof {
            use_type_invariant(self);
        }
        &self.shape
    }

    /// The layout of the buffer.
    pub fn data_order(&self) -> (data_order: DataOrder)
        ensures
            data_order == self@.data_order,
    {
        self.data_order
    }

    /// The number of axes.
    pub fn rank(&self) -> (rank: usize)
        ensures
            rank == self@.rank(),
    {
        self.shape.len()
    }

    /// The buffer, given up by the array.
    pub fn into_data(self) -> (data: Vec<T>)
        ensures
            data@ == self@.data,
    {
        self.data
    }

    /// The offset in the buffer of the element at `indices`.
    ///
    /// The index is refused unless it has one entry for each axis, each below
    /// the size of its axis.
    pub fn calculate_data_index_from_array_indices(&self, indices: Vec<usize>) -> (at: Result<
        usize,
        ArrayError,
    >)
        ensures
            valid_indices(self@.shape, indices@) ==> at == Ok::<usize, ArrayError>(
                offset_spec(self@.shape, self@.data_order, indices@) as usize,
            ) && offset_spec(self@.shape, self@.data_order, indices@) < self@.data.len(),
            !valid_indices(self@.shape, indices@) ==> at == Err::<usize, ArrayError>(
                ArrayError::IndexOutOfBounds,
            ),
    {
        proof {
            use_type_invariant(self);
            assert(self.data@.len() == self.data.len());
        }
        offset(self.shape.as_slice(), self.data_order, indices.as_slice())
    }

    /// The element at `indices`.
    ///
    /// The index is refused unless it has one entry for each axis, each below
    /// the size of its axis.
    pub fn get(&self, indices: &[usize]) -> (found: Result<&T, ArrayError>)
        ensures
            valid_indices(self@.shape, indices@) ==> found == Ok::<&T, ArrayError>(
                &self@.element(indices@),
            ),
            !valid_indices(self@.shape, indices@) ==> found == Err::<&T, ArrayError>(
                ArrayError::IndexOutOfBounds,
            ),
    {
        proof {
            use_type_invariant(self);
            assert(self.data@.len() == self.data.len());
        }
        match offset(self.shape.as_slice(), self.data_order, indices) {
            Ok(at) => Ok(&self.data[at]),
            Err(error) => Err(error),
        }
    }

    /// A new array with a copy of the buffer under the shape `new_shape`.
    ///
    /// It is refused unless `new_shape` asks for exactly the elements that
    /// the buffer holds.
    pub fn reshape(&self, new_shape: Vec<usize>) -> (reshaped: Result<Self, ArrayError>)
        ensures
            shape_product(new_shape@) == self@.data.len() ==> reshaped is Ok && reshaped->Ok_0@
                == self@.reshaped(new_shape@),
            shape_product(new_shape@) != self@.data.len() ==> reshaped is Err && reshaped->Err_0
                == ArrayError::ShapeMismatch,
    {
        if shape_holds(new_shape.as_slice(), self.data.len()) {
            Ok(
                Array {
                    data: duplicate_buffer(&self.data),
                    shape: new_shape,
                    data_order: self.data_order,
                },
            )
        } else {
            Err(ArrayError::ShapeMismatch)
        }
    }

    /// The same array under the shape `new_shape`: the buffer is moved, not
    /// touched.
    ///
    /// It is refused unless `new_shape` asks for exactly the elements that
    /// the buffer holds.
    pub fn reshape_inplace(self, new_shape: Vec<usize>) -> (reshaped: Result<Self, ArrayError>)
        ensures
            shape_product(new_shape@) == self@.data.len() ==> reshaped is Ok && reshaped->Ok_0@
                == self@.reshaped(new_shape@),
            shape_product(new_shape@) != self@.data.len() ==> reshaped is Err && reshaped->Err_0
                == ArrayError::ShapeMismatch,
    {
        if shape_holds(new_shape.as_slice(), self.data.len()) {
            Ok(Array { data: self.data, shape: new_shape, data_order: self.data_order })
        } else {
            Err(ArrayError::ShapeMismatch)
        }
    }
}

/// At least one row, and every row as long as the first.
pub open spec fn rows_are_even<T>(rows: Seq<Vec<T>>) -> bool {
    &&& rows.len() > 0
    &&& forall|r: int| 0 <= r < rows.len() ==> (#[trigger] rows[r])@.len() == rows[0]@.len()
}

/// The elements of rows of one length, one row after the other.
pub open spec fn row_major_buffer<T>(rows: Seq<Vec<T>>) -> Seq<T> {
    let cols = rows[0]@.len() as int;
    Seq::new((rows.len() * cols) as nat, |p: int| rows[p / cols]@[p % cols])
}

impl<T: Scalar> Array<T> {
    /// The matrix whose rows are `rows`, laid out row-major: as many rows as
    /// `rows` has, as many columns as each of them is long, and in row `r`
    /// and column `c` the element `c` of row `r`.
    ///
    /// It is refused with a shape mismatch unless there is at least one row
    /// and every row is as long as the first.
    pub fn from_rows(rows: &[Vec<T>]) -> (made: Result<Self, ArrayError>)
        ensures
            rows_are_even(rows@) ==> made is Ok && made->Ok_0@ == (ArrayView {
                data: row_major_buffer(rows@),
                shape: seq![rows@.len() as usize, rows@[0]@.len() as usize],
                data_order: DataOrder::RowMajor,
            }),
            rows_are_even(rows@) ==> forall|r: int, c: int|
                0 <= r < rows@.len() && 0 <= c < rows@[0]@.len() ==> #[trigger] made->Ok_0@.entry(
                    r,
                    c,
                ) == rows@[r]@[c],
            !rows_are_even(rows@) ==> made is Err && made->Err_0 == ArrayError::ShapeMismatch,
    {
        let count: usize = rows.len();
        if count == 0 {
            return Err(ArrayError::ShapeMismatch);
        }
        let cols: usize = rows[0].len();
        let mut r: usize = 0;
        while r < count
            invariant
                r <= count,
                count == rows@.len(),
                count > 0,
                cols == rows@[0]@.len(),
                forall|k: int| 0 <= k < r ==> (#[trigger] rows@[k])@.len() == cols,
            decreases count - r,
        {
            if rows[r].len() != cols {
                return Err(ArrayError::ShapeMismatch);
            }
            r += 1;
        }
        let mut data: Vec<T> = Vec::new();
        let mut r: usize = 0;
        while r < count
            invariant
                r <= count,
                count == rows@.len(),
                cols == rows@[0]@.len(),
                rows_are_even(rows@),
                data@.len() == r * cols,
                forall|p: int|
                    0 <= p < r * cols ==> #[trigger] data@[p] == rows@[p / (cols as int)]@[p % (
                    cols as int)],
            decreases count - r,
        {
            let row = &rows[r];
            let mut c: usize = 0;
            while c < cols
                invariant
                    r < count,
                    c <= cols,
                    count == rows@.len(),
                    cols == rows@[0]@.len(),
                    rows_are_even(rows@),
                    row@ == rows@[r as int]@,
                    data@.len() == r * cols + c,
                    forall|p: int|
                        0 <= p < r * cols + c ==> #[trigger] data@[p] == rows@[p / (cols as int)]@[p
                            % (cols as int)],
                decreases cols - c,
            {
                proof {
                    lemma_fundamental_div_mod_converse(
                        r * cols + c,
                        cols as int,
                        r as int,
                        c as int,
                    );
                }
                data.push(duplicate(&row[c]));
                c += 1;
            }
            proof {
                assert((r + 1) * cols == r * cols + cols) by (nonlinear_arith);
            }
            r += 1;
        }
        let mut shape: Vec<usize> = Vec::with_capacity(2);
        shape.push(count);
        shape.push(cols);
        proof {
            assert(shape@ =~= seq![count, cols]);
            lemma_offset_rank_two(count, cols, 0, 0);
            assert(data@ =~= row_major_buffer(rows@));
        }
        let made = Array { data, shape, data_order: DataOrder::RowMajor };
        proof {
            assert forall|i: int, j: int|
                0 <= i < rows@.len() && 0 <= j < rows@[0]@.len() implies #[trigger] made@.entry(
                i,
                j,
            ) == rows@[i]@[j] by {
                lemma_offset_rank_two(count, cols, i as usize, j as usize);
                lemma_fundamental_div_mod_converse(j + i * cols, cols as int, i, j);
                assert(j + i * cols < count * cols) by (nonlinear_arith)
                    requires
                        0 <= i < count,
                        0 <= j < cols,
                ;
            }
        }
        Ok(made)
    }
}

/// The sums of the elements of two buffers, place by place.
pub open spec fn elementwise_sum<T: Add<Output = T>>(left: Seq<T>, right: Seq<T>) -> Seq<T> {
    Seq::new(left.len(), |i: int| left[i].add_spec(right[i]))
}

/// Every sum of [`elementwise_sum`] can be computed.
pub open spec fn elementwise_sum_defined<T: Add<Output = T>>(left: Seq<T>, right: Seq<T>) -> bool {
    forall|i: int| 0 <= i < left.len() ==> #[trigger] left[i].add_req(right[i])
}

/// The differences of the elements of two buffers, place by place.
pub open spec fn elementwise_difference<T: Sub<Output = T>>(left: Seq<T>, right: Seq<T>) -> Seq<
    T,
> {
    Seq::new(left.len(), |i: int| left[i].sub_spec(right[i]))
}

/// Every difference of [`elementwise_difference`] can be computed.
pub open spec fn elementwise_difference_defined<T: Sub<Output = T>>(
    left: Seq<T>,
    right: Seq<T>,
) -> bool {
    forall|i: int| 0 <= i < left.len() ==> #[trigger] left[i].sub_req(right[i])
}

/// The products of the elements of a buffer with one factor.
pub open spec fn scaled<T: Mul<Output = T>>(buffer: Seq<T>, factor: T) -> Seq<T> {
    Seq::new(buffer.len(), |i: int| buffer[i].mul_spec(factor))
}

/// Every product of [`scaled`] can be computed.
pub open spec fn scaled_defined<T: Mul<Output = T>>(buffer: Seq<T>, factor: T) -> bool {
    forall|i: int| 0 <= i < buffer.len() ==> #[trigger] buffer[i].mul_req(factor)
}

impl<T: Add<Output = T>> ArrayView<T> {
    /// The sum with an array of the same shape, place by place in buffer
    /// order, under the shape and layout of `self`.
    pub open spec fn plus(self, rhs: ArrayView<T>) -> ArrayView<T> {
        ArrayView {
            data: elementwise_sum(self.data, rhs.data),
            shape: self.shape,
            data_order: self.data_order,
        }
    }
}

impl<T: Sub<Output = T>> ArrayView<T> {
    /// The difference with an array of the same shape, place by place in
    /// buffer order, under the shape and layout of `self`.
    pub open spec fn minus(self, rhs: ArrayView<T>) -> ArrayView<T> {
        ArrayView {
            data: elementwise_difference(self.data, rhs.data),
            shape: self.shape,
            data_order: self.data_order,
        }
    }
}

/// Adding an array and then taking it away again gives back the array that
/// was there, for every two arrays of one shape over a scalar type whose
/// subtraction undoes its addition.
pub proof fn lemma_add_then_sub_gives_back<T: Add<Output = T> + Sub<Output = T>>(
    a: ArrayView<T>,
    b: ArrayView<T>,
)
    requires
        a.well_formed(),
        b.well_formed(),
        a.shape == b.shape,
        subtraction_undoes_addition::<T>(),
    ensures
        a.plus(b).minus(b) == a,
{
    assert(a.plus(b).minus(b).data =~= a.data);
}

/// Where every sum of two buffers can be computed and sums can be taken back,
/// every difference of the sums and the second buffer can be computed.
pub proof fn lemma_sum_can_be_taken_back<T: Add<Output = T> + Sub<Output = T>>(
    a: Seq<T>,
    b: Seq<T>,
)
    requires
        a.len() == b.len(),
        elementwise_sum_defined(a, b),
        sums_can_be_taken_back::<T>(),
    ensures
        elementwise_difference_defined(elementwise_sum(a, b), b),
{
    assert forall|i: int| 0 <= i < a.len() implies #[trigger] elementwise_sum(a, b)[i].sub_req(
        b[i],
    ) by {
        assert(a[i].add_req(b[i]));
    }
}

impl<T: Scalar> Array<T> {
    /// A new array of the same shape and layout whose elements are those of
    /// this one passed through `func`, in buffer order. The elements are
    /// cloned first; this array is left as it was.
    pub fn map<U: Scalar, F: Fn(T) -> U>(&self, func: F) -> (mapped: Array<U>)
        requires
            forall|i: int| 0 <= i < self@.data.len() ==> call_requires(func, (#[trigger] self@.data[i],)),
        ensures
            mapped@.shape == self@.shape,
            mapped@.data_order == self@.data_order,
            mapped@.data.len() == self@.data.len(),
            mapped@.well_formed(),
            forall|i: int|
                0 <= i < self@.data.len() ==> call_ensures(
                    func,
                    (self@.data[i],),
                    #[trigger] mapped@.data[i],
                ),
    {
        proof {
            use_type_invariant(self);
            assert(self@.data == self.data@);
        }
        let len: usize = self.data.len();
        let mut out: Vec<U> = Vec::with_capacity(len);
        let mut i: usize = 0;
        while i < len
            invariant
                i <= len,
                len == self.data@.len(),
                out@.len() == i,
                forall|k: int| 0 <= k < len ==> call_requires(func, (#[trigger] self.data@[k],)),
                forall|k: int| 0 <= k < i ==> call_ensures(func, (self.data@[k],), #[trigger] out@[k]),
            decreases len - i,
        {
            let element = duplicate(&self.data[i]);
            out.push(func(element));
            i += 1;
        }
        Array { data: out, shape: copy_shape(&self.shape), data_order: self.data_order }
    }

    /// An array of the same shape and layout whose elements are those of this
    /// one passed through `func`, in buffer order. The buffer is consumed.
    pub fn map_inplace<U: Scalar, F: Fn(T) -> U>(self, func: F) -> (mapped: Array<U>)
        requires
            forall|i: int| 0 <= i < self@.data.len() ==> call_requires(func, (#[trigger] self@.data[i],)),
        ensures
            mapped@.shape == self@.shape,
            mapped@.data_order == self@.data_order,
            mapped@.data.len() == self@.data.len(),
            mapped@.well_formed(),
            forall|i: int|
                0 <= i < self@.data.len() ==> call_ensures(
                    func,
                    (self@.data[i],),
                    #[trigger] mapped@.data[i],
                ),
    {
        proof {
            use_type_invariant(&self);
            assert(self@.data == self.data@);
        }
        let Array { data, shape, data_order } = self;
        let ghost before = data@;
        let mut out: Vec<U> = Vec::with_capacity(data.len());
        for element in iter: data
            invariant
                iter.seq() == before,
                out@.len() == iter.index(),
                forall|k: int| 0 <= k < before.len() ==> call_requires(func, (#[trigger] before[k],)),
                forall|k: int|
                    0 <= k < iter.index() ==> call_ensures(func, (before[k],), #[trigger] out@[k]),
        {
            out.push(func(element));
        }
        Array { data: out, shape, data_order }
    }
}

impl<T: Scalar + Add<Output = T>> Array<T> {
    /// The sum of two arrays of one shape, place by place in buffer order,
    /// as a new array with the shape and layout of `self`. Both operands are
    /// left as they were.
    ///
    /// It is refused unless the two shapes are the same.
    pub fn add(&self, rhs: &Array<T>) -> (result: Result<Array<T>, ArrayError>)
        requires
            self@.shape == rhs@.shape ==> elementwise_sum_defined(self@.data, rhs@.data),
        ensures
            self@.shape != rhs@.shape ==> result is Err && result->Err_0
                == (ArrayError::DimensionMismatch { input_check: true }),
            self@.shape == rhs@.shape ==> result is Ok && result->Ok_0@.shape == self@.shape
                && result->Ok_0@.data_order == self@.data_order && result->Ok_0@.data.len()
                == self@.data.len() && result->Ok_0@.well_formed(),
            self@.shape == rhs@.shape && T::obeys_add_spec() ==> result->Ok_0@ == self@.plus(
                rhs@,
            ),
    {
        proof {
            use_type_invariant(self);
            use_type_invariant(rhs);
            assert(self@.data == self.data@ && rhs@.data == rhs.data@);
        }
        if !same_shape(self.shape.as_slice(), rhs.shape.as_slice()) {
            return Err(ArrayError::DimensionMismatch { input_check: true });
        }
        let len: usize = self.data.len();
        let mut out: Vec<T> = Vec::with_capacity(len);
        let mut i: usize = 0;
        while i < len
            invariant
                i <= len,
                len == self.data@.len(),
                len == rhs.data@.len(),
                out@.len() == i,
                elementwise_sum_defined(self.data@, rhs.data@),
                T::obeys_add_spec() ==> forall|k: int|
                    0 <= k < i ==> #[trigger] out@[k] == self.data@[k].add_spec(rhs.data@[k]),
            decreases len - i,
        {
            assert(self.data@[i as int].add_req(rhs.data@[i as int]));
            let value = duplicate(&self.data[i]) + duplicate(&rhs.data[i]);
            out.push(value);
            i += 1;
        }
        proof {
            if T::obeys_add_spec() {
                assert(out@ =~= elementwise_sum(self.data@, rhs.data@));
            }
        }
        Ok(Array { data: out, shape: copy_shape(&self.shape), data_order: self.data_order })
    }

    /// The sum of two arrays of one shape, place by place in buffer order,
    /// written into the buffer of `self`, which is handed back. Both operands
    /// are consumed, and no second buffer is made.
    ///
    /// It is refused unless the two shapes are the same.
    pub fn add_inplace(self, rhs: Array<T>) -> (result: Result<Array<T>, ArrayError>)
        requires
            self@.shape == rhs@.shape ==> elementwise_sum_defined(self@.data, rhs@.data),
        ensures
            self@.shape != rhs@.shape ==> result is Err && result->Err_0
                == (ArrayError::DimensionMismatch { input_check: false }),
            self@.shape == rhs@.shape ==> result is Ok && result->Ok_0@.shape == self@.shape
                && result->Ok_0@.data_order == self@.data_order && result->Ok_0@.data.len()
                == self@.data.len() && result->Ok_0@.well_formed(),
            self@.shape == rhs@.shape && T::obeys_add_spec() ==> result->Ok_0@ == self@.plus(
                rhs@,
            ),
    {
        proof {
            use_type_invariant(&self);
            use_type_invariant(&rhs);
            assert(self@.data == self.data@ && rhs@.data == rhs.data@);
        }
        if !same_shape(self.shape.as_slice(), rhs.shape.as_slice()) {
            return Err(ArrayError::DimensionMismatch { input_check: false });
        }
        let Array { data, shape, data_order } = self;
        let mut data = data;
        let ghost before = data@;
        let len: usize = data.len();
        let mut i: usize = 0;
        while i < len
            invariant
                i <= len,
                len == before.len(),
                len == rhs.data@.len(),
                data@.len() == len,
                elementwise_sum_defined(before, rhs.data@),
                forall|k: int| i <= k < len ==> #[trigger] data@[k] == before[k],
                T::obeys_add_spec() ==> forall|k: int|
                    0 <= k < i ==> #[trigger] data@[k] == before[k].add_spec(rhs.data@[k]),
            decreases len - i,
        {
            assert(before[i as int].add_req(rhs.data@[i as int]));
            let value = duplicate(&data[i]) + duplicate(&rhs.data[i]);
            data.set(i, value);
            i += 1;
        }
        proof {
            if T::obeys_add_spec() {
                assert(data@ =~= elementwise_sum(before, rhs.data@));
            }
        }
        Ok(Array { data, shape, data_order })
    }
}

impl<T: Scalar + Sub<Output = T>> Array<T> {
    /// The difference of two arrays of one shape, place by place in buffer order,
    /// as a new array with the shape and layout of `self`. Both operands are
    /// left as they were.
    ///
    /// It is refused unless the two shapes are the same.
    pub fn sub(&self, rhs: &Array<T>) -> (result: Result<Array<T>, ArrayError>)
        requires
            self@.shape == rhs@.shape ==> elementwise_difference_defined(self@.data, rhs@.data),
        ensures
            self@.shape != rhs@.shape ==> result is Err && result->Err_0
                == (ArrayError::DimensionMismatch { input_check: true }),
            self@.shape == rhs@.shape ==> result is Ok && result->Ok_0@.shape == self@.shape
                && result->Ok_0@.data_order == self@.data_order && result->Ok_0@.data.len()
                == self@.data.len() && result->Ok_0@.well_formed(),
            self@.shape == rhs@.shape && T::obeys_sub_spec() ==> result->Ok_0@ == self@.minus(
                rhs@,
            ),
    {
        proof {
            use_type_invariant(self);
            use_type_invariant(rhs);
            assert(self@.data == self.data@ && rhs@.data == rhs.data@);
        }
        if !same_shape(self.shape.as_slice(), rhs.shape.as_slice()) {
            return Err(ArrayError::DimensionMismatch { input_check: true });
        }
        let len: usize = self.data.len();
        let mut out: Vec<T> = Vec::with_capacity(len);
        let mut i: usize = 0;
        while i < len
            invariant
                i <= len,
                len == self.data@.len(),
                len == rhs.data@.len(),
                out@.len() == i,
                elementwise_difference_defined(self.data@, rhs.data@),
                T::obeys_sub_spec() ==> forall|k: int|
                    0 <= k < i ==> #[trigger] out@[k] == self.data@[k].sub_spec(rhs.data@[k]),
            decreases len - i,
        {
            assert(self.data@[i as int].sub_req(rhs.data@[i as int]));
            let value = duplicate(&self.data[i]) - duplicate(&rhs.data[i]);
            out.push(value);
            i += 1;
        }
        proof {
            if T::obeys_sub_spec() {
                assert(out@ =~= elementwise_difference(self.data@, rhs.data@));
            }
        }
        Ok(Array { data: out, shape: copy_shape(&self.shape), data_order: self.data_order })
    }

    /// The difference of two arrays of one shape, place by place in buffer order,
    /// written into the buffer of `self`, which is handed back. Both operands
    /// are consumed, and no second buffer is made.
    ///
    /// It is refused unless the two shapes are the same.
    pub fn sub_inplace(self, rhs: Array<T>) -> (result: Result<Array<T>, ArrayError>)
        requires
            self@.shape == rhs@.shape ==> elementwise_difference_defined(self@.data, rhs@.data),
        ensures
            self@.shape != rhs@.shape ==> result is Err && result->Err_0
                == (ArrayError::DimensionMismatch { input_check: false }),
            self@.shape == rhs@.shape ==> result is Ok && result->Ok_0@.shape == self@.shape
                && result->Ok_0@.data_order == self@.data_order && result->Ok_0@.data.len()
                == self@.data.len() && result->Ok_0@.well_formed(),
            self@.shape == rhs@.shape && T::obeys_sub_spec() ==> result->Ok_0@ == self@.minus(
                rhs@,
            ),
    {
        proof {
            use_type_invariant(&self);
            use_type_invariant(&rhs);
            assert(self@.data == self.data@ && rhs@.data == rhs.data@);
        }
        if !same_shape(self.shape.as_slice(), rhs.shape.as_slice()) {
            return Err(ArrayError::DimensionMismatch { input_check: false });
        }
        let Array { data, shape, data_order } = self;
        let mut data = data;
        let ghost before = data@;
        let len: usize = data.len();
        let mut i: usize = 0;
        while i < len
            invariant
                i <= len,
                len == before.len(),
                len == rhs.data@.len(),
                data@.len() == len,
                elementwise_difference_defined(before, rhs.data@),
                forall|k: int| i <= k < len ==> #[trigger] data@[k] == before[k],
                T::obeys_sub_spec() ==> forall|k: int|
                    0 <= k < i ==> #[trigger] data@[k] == before[k].sub_spec(rhs.data@[k]),
            decreases len - i,
        {
            assert(before[i as int].sub_req(rhs.data@[i as int]));
            let value = duplicate(&data[i]) - duplicate(&rhs.data[i]);
            data.set(i, value);
            i += 1;
        }
        proof {
            if T::obeys_sub_spec() {
                assert(data@ =~= elementwise_difference(before, rhs.data@));
            }
        }
        Ok(Array { data, shape, data_order })
    }
}

impl<T: Scalar + Mul<Output = T>> Array<T> {
    /// The array with every element multiplied by `rhs`, in the buffer of
    /// `self`.
    pub fn mul(self, rhs: T) -> (result: Array<T>)
        requires
            scaled_defined(self@.data, rhs),
        ensures
            result@.shape == self@.shape,
            result@.data_order == self@.data_order,
            result@.data.len() == self@.data.len(),
            result@.well_formed(),
            T::obeys_mul_spec() ==> result@.data == scaled(self@.data, rhs),
    {
        proof {
            use_type_invariant(&self);
            assert(self@.data == self.data@);
        }
        let Array { data, shape, data_order } = self;
        let mut data = data;
        let ghost before = data@;
        let len: usize = data.len();
        let mut i: usize = 0;
        while i < len
            invariant
                i <= len,
                len == before.len(),
                data@.len() == len,
                scaled_defined(before, rhs),
                forall|k: int| i <= k < len ==> #[trigger] data@[k] == before[k],
                T::obeys_mul_spec() ==> forall|k: int|
                    0 <= k < i ==> #[trigger] data@[k] == before[k].mul_spec(rhs),
            decreases len - i,
        {
            assert(before[i as int].mul_req(rhs));
            let value = duplicate(&data[i]) * duplicate(&rhs);
            data.set(i, value);
            i += 1;
        }
        proof {
            if T::obeys_mul_spec() {
                assert(data@ =~= scaled(before, rhs));
            }
        }
        Array { data, shape, data_order }
    }
}

} // verus!
